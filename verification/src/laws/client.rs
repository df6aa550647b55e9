//! What the interactive client promises.
use crate::client;
use crate::client::{
    check_printable, choose_op, choose_step, complete_key, elapsed_reading, format_group,
    format_groups, format_result, get_prompt, handle_cmd, handle_done, handle_op, next_step,
    tokenize, OpStep, Step,
};
use crate::entries;
use crate::gateway::{CommandResult, OperationResult, Status};
use crate::laws;
use crate::scan;
use crate::scan::Marks;
use crate::text;
use vstd::prelude::*;

verus! {

/// A line that holds neither a space nor a double quote is its own only token, however long it is;
/// more generally, so is one all of whose spaces stand inside quotes, without its quotes.
pub proof fn client_keeps_a_word_whole(line: &str, tokens: Vec<String>)
    requires
        call_ensures(tokenize, (line,), tokens),
        forall|i: int|
            0 <= i < line@.len() && line@[i] == ' ' ==> client::quotes_in(
                #[trigger] line@.take(i),
            ) % 2 == 1,
    ensures
        line@.len() > 0 && !line@.contains(' ') && !line@.contains('"') ==> tokens@.len() == 1
            && tokens@[0]@ == line@,
        tokens@.map_values(|t: String| t@) == if line@.filter(|c: char| c != '"').len() > 0
            || line@.filter(|c: char| c == '"').len() >= 2 {
            seq![line@.filter(|c: char| c != '"')]
        } else {
            Seq::empty()
        },
{
    client::piece_is_one_token(line@);
    assert(text::texts(tokens@) == tokens@.map_values(|t: String| t@));
    if line@.len() > 0 && !line@.contains(' ') && !line@.contains('"') {
        client::plain_word_is_one_token(line@);
        assert(text::texts(tokens@)[0] == tokens@[0]@);
    }
}

/// The tokens of a line are those in front of any space outside quotes and then those behind it.
pub proof fn client_tokens_are_split_at_spaces(
    line: &str,
    tokens: Vec<String>,
    at: int,
    front: &str,
    first: Vec<String>,
    back: &str,
    second: Vec<String>,
)
    requires
        call_ensures(tokenize, (line,), tokens),
        call_ensures(tokenize, (front,), first),
        call_ensures(tokenize, (back,), second),
        0 <= at < line@.len(),
        line@[at] == ' ',
        line@.take(at).filter(|c: char| c == '"').len() % 2 == 0,
        front@ == line@.take(at),
        back@ == line@.skip(at + 1),
    ensures
        tokens@.map_values(|t: String| t@) == first@.map_values(|t: String| t@)
            + second@.map_values(|t: String| t@),
{
    client::tokens_split_at_a_space(front@, back@);
    assert(line@ == front@ + seq![' '] + back@);
    assert(text::texts(tokens@) == tokens@.map_values(|t: String| t@));
    assert(text::texts(first@) == first@.map_values(|t: String| t@));
    assert(text::texts(second@) == second@.map_values(|t: String| t@));
}

/// The tokens of a line hold all of its characters in order but its quotes and the spaces outside
/// quotes, and none of them holds a quote.
pub proof fn client_tokens_lose_nothing(line: &str, tokens: Vec<String>)
    requires
        call_ensures(tokenize, (line,), tokens),
    ensures
        tokens@.map_values(|t: String| t@).flatten() == client::kept(line@, false),
        forall|i: int| 0 <= i < tokens@.len() ==> !(#[trigger] tokens@[i])@.contains('"'),
{
    client::tokens_lose_nothing(line@);
    client::tokens_are_tokens(line@);
    assert(text::texts(tokens@) == tokens@.map_values(|t: String| t@));
    assert forall|i: int| 0 <= i < tokens@.len() implies !(#[trigger] tokens@[i])@.contains('"') by {
        assert(client::tokens_of(line@)[i] == tokens@[i]@);
    }
}

/// Whether `key` is the key that is meant by `word`: the word itself where it has the prefix of all
/// keys, and the word behind the prefix where it has not.
pub open spec fn is_key_for(key: Seq<char>, word: Seq<char>) -> bool {
    if exists|rest: Seq<char>| word == #[trigger] ("usertable_user"@ + rest) {
        key == word
    } else {
        key == "usertable_user"@ + word
    }
}

/// The key that is meant by a word is the word with the prefix of all keys, which is put in front
/// of it only where it is missing.
pub proof fn keys_get_their_prefix_once(word: &str, key: String)
    requires
        call_ensures(complete_key, (word,), key),
    ensures
        is_key_for(key@, word@),
{
    full_key_is_meant(word@);
}

proof fn full_key_is_meant(word: Seq<char>)
    ensures
        is_key_for(client::full_key(word), word),
{
    text::parts_stand_in_texts(word, "usertable_user"@);
}

/// Whether `args` are the arguments of the operation `name` on the line `tokens`: as many as the
/// tokens behind its name, the first of them a key, the second a key for a scan and the token as it
/// stands for the other operations.
pub open spec fn are_arguments(args: Vec<String>, name: Seq<char>, tokens: Vec<String>) -> bool {
    &&& args@.len() + 2 == tokens@.len()
    &&& is_key_for(args@[0]@, tokens@[2]@)
    &&& args@.len() == 2 ==> if name == "SCAN"@ {
        is_key_for(args@[1]@, tokens@[3]@)
    } else {
        args@[1]@ == tokens@[3]@
    }
}

/// An operation is sent with all of its arguments, whether it is executed at once, which is done
/// where no command is being put together, or added to a command, which is reported with its id.
/// A line with another number of arguments than the operation takes is answered with an error, and
/// one without an operation that is known ends the client.
pub proof fn operation_is_sent_with_all_arguments(
    name: String,
    tokens: Vec<String>,
    next_op_id: Option<u32>,
    step: OpStep,
)
    requires
        call_ensures(choose_op, (name, &tokens, next_op_id), step),
    ensures
        match step {
            OpStep::Panic(said) => said@ == "unknown operation: "@ + name@,
            OpStep::Reply(said) => said@ == "ERROR invalid operation"@,
            OpStep::Execute { name: sent, args } => next_op_id is None && sent@ == name@
                && are_arguments(args, name@, tokens),
            OpStep::Add { name: sent, args, reply } => sent@ == name@ && are_arguments(
                args,
                name@,
                tokens,
            ) && (next_op_id matches Some(id) && reply@ == "OP "@ + text::decimal(id as nat)),
        },
        step is Panic <==> !(name@ == "GET"@ || name@ == "DELETE"@ || name@ == "PUT"@ || name@
            == "SWAP"@ || name@ == "SCAN"@),
        step is Execute || step is Add <==> {
            ||| (name@ == "GET"@ || name@ == "DELETE"@) && tokens@.len() == 3
            ||| (name@ == "PUT"@ || name@ == "SWAP"@ || name@ == "SCAN"@) && tokens@.len() == 4
        },
{
    let all = text::texts(tokens@);
    reveal_strlit("GET");
    reveal_strlit("DELETE");
    reveal_strlit("PUT");
    reveal_strlit("SWAP");
    reveal_strlit("SCAN");
    assert("GET"@[0] == 'G' && "DELETE"@[0] == 'D' && "PUT"@[0] == 'P' && "SWAP"@[1] == 'W'
        && "SCAN"@[1] == 'C' && "SWAP"@[0] == 'S' && "SCAN"@[0] == 'S');
    text::errors_are_marked("invalid operation"@);
    reveal_strlit("ERROR ");
    reveal_strlit("invalid operation");
    reveal_strlit("ERROR invalid operation");
    assert("ERROR invalid operation"@ =~= "ERROR "@ + "invalid operation"@);
    if let OpStep::Execute { args, .. } = step {
        sent_arguments_are_all(args, name@, tokens);
    }
    if let OpStep::Add { args, .. } = step {
        sent_arguments_are_all(args, name@, tokens);
    }
}

proof fn sent_arguments_are_all(args: Vec<String>, name: Seq<char>, tokens: Vec<String>)
    requires
        client::op_args(name, text::texts(tokens@)) == Some(text::texts(args@)),
        client::is_operation(name),
    ensures
        are_arguments(args, name, tokens),
{
    let all = text::texts(tokens@);
    let given = text::texts(args@);
    assert(all.len() == tokens@.len() && given.len() == args@.len());
    reveal_strlit("GET");
    reveal_strlit("DELETE");
    reveal_strlit("PUT");
    reveal_strlit("SWAP");
    reveal_strlit("SCAN");
    assert("GET"@[0] == 'G' && "DELETE"@[0] == 'D' && "PUT"@[0] == 'P' && "SWAP"@[1] == 'W'
        && "SCAN"@[1] == 'C' && "SCAN"@[0] == 'S');
    assert(given[0] == args@[0]@);
    assert(all[2] == tokens@[2]@);
    full_key_is_meant(all[2]);
    if tokens@.len() == 4 {
        assert(given[1] == args@[1]@);
        assert(all[3] == tokens@[3]@);
        full_key_is_meant(all[3]);
    }
}

/// Whether it is executed at once or added to a command, the same line is sent with the same name
/// and the same arguments, and refused in the same way.
pub proof fn command_in_progress_changes_only_when(
    tokens: Vec<String>,
    id: u32,
    now: OpStep,
    later: OpStep,
)
    requires
        call_ensures(handle_op, (&tokens, None::<u32>), now),
        call_ensures(handle_op, (&tokens, Some(id)), later),
    ensures
        match (now, later) {
            (OpStep::Execute { name: a, args: x }, OpStep::Add { name: b, args: y, .. }) => a@ == b@
                && x@.map_values(|t: String| t@) == y@.map_values(|t: String| t@),
            (OpStep::Reply(a), OpStep::Reply(b)) => a@ == b@,
            (OpStep::Panic(a), OpStep::Panic(b)) => a@ == b@,
            _ => false,
        },
{
}

/// The operation on a line is the one that its second token names, in upper case; a line without a
/// second token ends the client.
pub proof fn operation_is_named_by_the_second_token(
    tokens: Vec<String>,
    next_op_id: Option<u32>,
    step: OpStep,
    word: &str,
    name: String,
    chosen: OpStep,
)
    requires
        call_ensures(handle_op, (&tokens, next_op_id), step),
        tokens@.len() > 1 ==> word@ == tokens@[1]@,
        call_ensures(str::to_uppercase, (word,), name),
        call_ensures(choose_op, (name, &tokens, next_op_id), chosen),
    ensures
        tokens@.len() < 2 ==> (step matches OpStep::Panic(t) && t@ == "no operation on the line"@),
        tokens@.len() > 1 ==> match (step, chosen) {
            (OpStep::Execute { name: a, args: x }, OpStep::Execute { name: b, args: y }) => a@ == b@
                && x@.map_values(|t: String| t@) == y@.map_values(|t: String| t@),
            (
                OpStep::Add { name: a, args: x, reply: p },
                OpStep::Add { name: b, args: y, reply: q },
            ) => a@ == b@ && x@.map_values(|t: String| t@) == y@.map_values(|t: String| t@) && p@
                == q@,
            (OpStep::Reply(a), OpStep::Reply(b)) => a@ == b@,
            (OpStep::Panic(a), OpStep::Panic(b)) => a@ == b@,
            _ => false,
        },
{
}

/// Each word that the client knows does one thing: it starts a command, hands on all tokens of an
/// operation or of the request to execute a command, switches the measuring of time over, clears,
/// or ends; any other line is reported in full.
pub proof fn first_word_decides_what_is_done(
    word: &str,
    tokens: Vec<String>,
    line: &str,
    measure_time: bool,
    step: Step,
)
    requires
        call_ensures(choose_step, (word, tokens, line, measure_time), step),
    ensures
        step is Cmd <==> word@ == "cmd"@,
        step is Op <==> word@ == "op"@,
        step is Done <==> word@ == "done"@,
        step is Time <==> word@ == "time"@,
        step is Clear <==> word@ == "clear"@,
        step is Exit <==> word@ == "exit"@ || word@ == "quit"@,
        match step {
            Step::Op(handed) | Step::Done(handed) => handed@.map_values(|t: String| t@)
                == tokens@.map_values(|t: String| t@),
            Step::Time { measure_time: after, reply } => after != measure_time && reply@ == (if after {
                "TIME: true"@
            } else {
                "TIME: false"@
            }),
            Step::Reply(said) => said@ == "ERROR unknown command: "@ + line@,
            Step::Skip => false,
            _ => true,
        },
{
    reveal_strlit("cmd");
    reveal_strlit("op");
    reveal_strlit("done");
    reveal_strlit("time");
    reveal_strlit("clear");
    reveal_strlit("exit");
    reveal_strlit("quit");
    assert("cmd"@.len() == 3 && "op"@.len() == 2 && "done"@[0] == 'd' && "time"@[0] == 't'
        && "clear"@.len() == 5 && "exit"@[0] == 'e' && "quit"@[0] == 'q' && "done"@.len() == 4
        && "time"@.len() == 4 && "exit"@.len() == 4 && "quit"@.len() == 4);
    reveal_strlit("TIME: ");
    reveal_strlit("true");
    reveal_strlit("false");
    reveal_strlit("TIME: true");
    reveal_strlit("TIME: false");
    assert("TIME: "@ + "true"@ =~= "TIME: true"@);
    assert("TIME: "@ + "false"@ =~= "TIME: false"@);
    reveal_strlit("ERROR ");
    reveal_strlit("unknown command: ");
    reveal_strlit("ERROR unknown command: ");
    assert("ERROR "@ + ("unknown command: "@ + line@) =~= "ERROR unknown command: "@ + line@);
}

/// What is done with a line is what is done with its tokens, the first of them in lower case; a
/// line is passed over exactly where it has no tokens or the first is empty.
pub proof fn client_line_is_its_tokens(
    line: &str,
    measure_time: bool,
    step: Step,
    tokens: Vec<String>,
    word: &str,
    lower: String,
    lower_word: &str,
    chosen: Step,
)
    requires
        call_ensures(next_step, (line, measure_time), step),
        call_ensures(tokenize, (line,), tokens),
        tokens@.len() > 0 ==> word@ == tokens@[0]@,
        call_ensures(str::to_lowercase, (word,), lower),
        lower_word@ == lower@,
        call_ensures(choose_step, (lower_word, tokens, line, measure_time), chosen),
    ensures
        step is Skip <==> tokens@.len() == 0 || tokens@[0]@.len() == 0,
        step !is Skip ==> match (step, chosen) {
            (Step::Op(x), Step::Op(y)) => x@.map_values(|t: String| t@) == y@.map_values(
                |t: String| t@,
            ),
            (Step::Done(x), Step::Done(y)) => x@.map_values(|t: String| t@) == y@.map_values(
                |t: String| t@,
            ),
            (
                Step::Time { measure_time: a, reply: p },
                Step::Time { measure_time: b, reply: q },
            ) => a == b && p@ == q@,
            (Step::Reply(a), Step::Reply(b)) => a@ == b@,
            (Step::Cmd, Step::Cmd) | (Step::Clear, Step::Clear) | (Step::Exit, Step::Exit) => true,
            _ => false,
        },
{
    first_word_decides_what_is_done(lower_word, tokens, line, measure_time, chosen);
    assert(client::tokens_of(line@).len() == tokens@.len());
    if tokens@.len() > 0 {
        assert(client::tokens_of(line@)[0] == tokens@[0]@);
    }
}

/// The prompt ends in `>> `; in front of it stands the id of the next operation exactly where a
/// command is being put together.
pub proof fn prompt_shows_the_next_id(next_op_id: Option<u32>, t: String)
    requires
        call_ensures(get_prompt, (next_op_id,), t),
    ensures
        match next_op_id {
            Some(id) => t@ == "[op "@ + text::decimal(id as nat) + "]>> "@,
            None => t@ == ">> "@,
        },
{
    reveal_strlit("]");
    reveal_strlit(">> ");
    reveal_strlit("]>> ");
    if let Some(id) = next_op_id {
        assert("[op "@ + text::decimal(id as nat) + "]"@ + ">> "@ =~= "[op "@ + text::decimal(
            id as nat,
        ) + "]>> "@);
    }
}

/// A new command is reported as started exactly where it was, and its error in full where not.
pub proof fn started_command_is_reported(started: Result<(), String>, t: String)
    requires
        call_ensures(handle_cmd, (started,), t),
    ensures
        match started {
            Ok(_) => t@ == "COMMAND"@,
            Err(e) => t@ == "ERROR "@ + e@,
        },
{
}

/// The current command is executed exactly where the request stands alone on its line.
pub proof fn done_stands_alone(tokens: Vec<String>, reply: Option<String>)
    requires
        call_ensures(handle_done, (&tokens,), reply),
    ensures
        reply is None <==> tokens@.len() == 1,
        reply matches Some(t) ==> t@ == "ERROR invalid DONE command"@,
{
    reveal_strlit("ERROR ");
    reveal_strlit("invalid DONE command");
    reveal_strlit("ERROR invalid DONE command");
    assert("ERROR "@ + "invalid DONE command"@ =~= "ERROR invalid DONE command"@);
}

/// A time is shown in the largest unit of which it fills one: `whole` of them, and behind a point
/// all of the time below a second in the next smaller unit.
pub proof fn time_is_shown_in_its_largest_unit(
    secs: u64,
    nanos: u32,
    r: (String, String),
    whole: nat,
    part: nat,
)
    requires
        call_ensures(elapsed_reading, (secs, nanos), r),
    ensures
        secs > 0 && whole == secs && part * 1_000_000 <= nanos < (part + 1) * 1_000_000 ==> r.1@
            == "s"@ && r.0@ == text::decimal(whole) + "."@ + text::decimal(part),
        secs == 0 && nanos >= 1_000_000 && whole * 1_000_000 <= nanos < (whole + 1) * 1_000_000
            && part * 1_000 <= nanos < (part + 1) * 1_000 ==> r.1@ == "ms"@ && r.0@
            == text::decimal(whole) + "."@ + text::decimal(part),
        secs == 0 && 1_000 <= nanos < 1_000_000 && whole * 1_000 <= nanos < (whole + 1) * 1_000
            ==> r.1@ == "µs"@ && r.0@ == text::decimal(whole) + "."@ + text::decimal(nanos as nat),
        secs == 0 && nanos < 1_000 ==> r.1@ == "ns"@ && r.0@ == text::decimal(nanos as nat),
{
}

/// Whether `extract_key_number` always reads the number in a key as `number` says.
pub open spec fn reads<R: Fn(&str) -> u64>(
    extract_key_number: R,
    number: spec_fn(Seq<char>) -> u64,
) -> bool {
    forall|k: &str, n: u64| #[trigger] extract_key_number.ensures((k,), n) ==> n == number(k@)
}

/// Whether `form_key` always writes the key of a number as `form` says.
pub open spec fn writes<N: Fn(u64) -> String>(
    form_key: N,
    form: spec_fn(u64) -> Seq<char>,
) -> bool {
    forall|n: u64, s: String| #[trigger] form_key.ensures((n,), s) ==> s@ == form(n)
}

/// The results of all operations of a command, partition by partition.
pub open spec fn operations(results: Seq<CommandResult>) -> Seq<OperationResult> {
    results.map_values(|r: CommandResult| r.ops@).flatten()
}

/// Those of the results that belong to the operation `id`, in order.
pub open spec fn of_operation(ops: Seq<OperationResult>, id: u32) -> Seq<OperationResult> {
    ops.filter(|op: OperationResult| op.id == id)
}

/// Whether the results of an operation are those of a scan: the first of them starts with `SCAN`
/// and a space, past the white space in front.
pub open spec fn says_scan(group: Seq<OperationResult>) -> bool {
    group.len() > 0 && exists|pre: Seq<char>, rest: Seq<char>|
        group[0].content@ == #[trigger] (pre + "SCAN "@ + rest) && forall|i: int|
            0 <= i < pre.len() ==> text::is_whitespace(#[trigger] pre[i])
}

/// What the results of an operation say, in order.
pub open spec fn answers_of(group: Seq<OperationResult>) -> Seq<Seq<char>> {
    group.map_values(|op: OperationResult| op.content@)
}

/// The entries of an answer: its lines below the first, trimmed, but for empty ones and those that
/// start with `SCAN` and a space.
pub open spec fn answer_entries(content: Seq<char>) -> Seq<Seq<char>> {
    let lines = text::lines(content);
    (if lines.len() > 0 {
        lines.drop_first()
    } else {
        lines
    }).map_values(|l: Seq<char>| text::trim(l)).filter(|l: Seq<char>| l.len() > 0).filter(
        |l: Seq<char>| !text::starts_with(l, "SCAN "@),
    )
}

/// Whether `t` shows a scan whose answers are `contents`: from the least first key to the greatest
/// last key, with `lines` as its entries, each behind two spaces.
pub open spec fn shows_scan(
    t: Seq<char>,
    contents: Seq<Seq<char>>,
    number: spec_fn(Seq<char>) -> u64,
    form: spec_fn(u64) -> Seq<char>,
    start: u64,
    end: u64,
    lines: Seq<Seq<char>>,
) -> bool {
    &&& laws::scan::is_start(contents, |w: Seq<char>| Some(number(w)), start)
    &&& laws::scan::is_end(contents, |w: Seq<char>| Some(number(w)), end)
    &&& laws::scan::lists_in_order(
        lines,
        contents.map_values(|c: Seq<char>| answer_entries(c)).flatten(),
        |w: Seq<char>| Some(number(w)),
    )
    &&& laws::scan::prints_scan(
        t,
        form(start),
        form(end),
        Seq::new(lines.len(), |i: int| "  "@ + lines[i]),
    )
}

/// What stands in front of the results of an operation: its id, and the mark of an error where any
/// of them is one.
pub open spec fn mark_of(id: u32, group: Seq<OperationResult>) -> Seq<char> {
    text::decimal(id as nat) + (if exists|i: int|
        0 <= i < group.len() && (#[trigger] group[i]).has_err {
        "> ERROR "@
    } else {
        "> "@
    })
}

/// Whether `said` shows the results `group` of an operation: the scan that they are, or the content
/// of the only one.
pub open spec fn shows_content(
    said: Seq<char>,
    group: Seq<OperationResult>,
    number: spec_fn(Seq<char>) -> u64,
    form: spec_fn(u64) -> Seq<char>,
) -> bool {
    if says_scan(group) {
        exists|start: u64, end: u64, lines: Seq<Seq<char>>| #[trigger]
            shows_scan(said, answers_of(group), number, form, start, end, lines)
    } else {
        group.len() == 1 && said == group[0].content@
    }
}

/// Whether `block` shows the results `group` of the operation `id`, behind its id and the mark of
/// an error where it has one.
pub open spec fn shows_group(
    block: Seq<char>,
    id: u32,
    group: Seq<OperationResult>,
    number: spec_fn(Seq<char>) -> u64,
    form: spec_fn(u64) -> Seq<char>,
) -> bool {
    exists|said: Seq<char>|
        block == mark_of(id, group) + said && #[trigger] shows_content(said, group, number, form)
}

/// The last line of what is shown: whether the command took effect.
pub open spec fn verdict_of(results: Seq<CommandResult>) -> Seq<char> {
    if exists|i: int| 0 <= i < results.len() && (#[trigger] results[i]).status == Status::Aborted {
        "ABORTED"@
    } else {
        "COMMITTED"@
    }
}

/// Whether the results of an operation have a form to be shown in: a scan has an answer with a
/// header, and any other operation has one result.
pub open spec fn has_form(group: Seq<OperationResult>) -> bool {
    if says_scan(group) {
        exists|i: int|
            0 <= i < group.len() && scan::bound_keys((#[trigger] group[i]).content@) is Some
    } else {
        group.len() == 1
    }
}

/// Whether `ids` are the ids of `ops`, each once, ascending.
pub open spec fn lists_ids(ids: Seq<u32>, ops: Seq<OperationResult>) -> bool {
    &&& forall|i: int, j: int| 0 <= i < j < ids.len() ==> #[trigger] ids[i] < #[trigger] ids[j]
    &&& forall|id: u32| #[trigger]
        ids.contains(id) <==> exists|k: int| 0 <= k < ops.len() && (#[trigger] ops[k]).id == id
}

/// Whether `t` shows the results of a command: for each operation, in the order of the ids, a block
/// on lines of its own, and last whether the command took effect.
pub open spec fn shows_results(
    t: Seq<char>,
    results: Seq<CommandResult>,
    ids: Seq<u32>,
    blocks: Seq<Seq<char>>,
    number: spec_fn(Seq<char>) -> u64,
    form: spec_fn(u64) -> Seq<char>,
) -> bool {
    &&& lists_ids(ids, operations(results))
    &&& blocks.len() == ids.len()
    &&& forall|k: int|
        0 <= k < ids.len() ==> shows_group(
            #[trigger] blocks[k],
            ids[k],
            of_operation(operations(results), ids[k]),
            number,
            form,
        )
    &&& t == blocks.map_values(|b: Seq<char>| b + "\n"@).flatten() + verdict_of(results)
}

proof fn answer_entries_are_kept(contents: Seq<Seq<char>>)
    ensures
        scan::entry_lines(contents, Marks::Any) == contents.map_values(
            |c: Seq<char>| answer_entries(c),
        ).flatten(),
{
    scan::all_entries_are_kept(contents);
    let f = |c: Seq<char>| scan::body(c).filter(|l: Seq<char>| !text::starts_with(l, "SCAN "@));
    let g = |c: Seq<char>| answer_entries(c);
    assert forall|i: int| 0 <= i < contents.len() implies f(contents[i]) == g(
        #[trigger] contents[i],
    ) by {
        let lines = text::lines(contents[i]);
        if lines.len() > 0 {
            scan::filled_lines_are_trimmed(lines.drop_first());
        } else {
            scan::filled_lines_are_trimmed(lines);
        }
    }
    assert(contents.map_values(f) == contents.map_values(g));
}

proof fn group_content_shows_scan(
    group: Seq<OperationResult>,
    number: spec_fn(Seq<char>) -> u64,
    form: spec_fn(u64) -> Seq<char>,
)
    requires
        client::is_scan(group),
        client::is_printable_group(group),
    ensures
        exists|start: u64, end: u64, lines: Seq<Seq<char>>| #[trigger]
            shows_scan(
                client::group_content(group, number, form),
                answers_of(group),
                number,
                form,
                start,
                end,
                lines,
            ),
{
    let contents = client::contents(group);
    let read = client::always(number);
    client::printable_scan_has_bounds(group, number);
    scan::merged_bounds_span_all_headers(contents, read);
    let start = scan::least(scan::start_numbers(contents, read))->0;
    let end = scan::greatest(scan::end_numbers(contents, read))->0;
    answer_entries_are_kept(contents);
    let entries = scan::entry_lines(contents, Marks::Any);
    let lines = entries::printed_lines(entries, read);
    laws::scan::printed_lines_list_in_order(entries, read);
    client::every_line_is_indented(lines);
    assert(client::indented(lines) == Seq::new(lines.len(), |i: int| "  "@ + lines[i]));
    scan::printed_scan_holds_all_lines(form(start), form(end), client::indented(lines));
    assert(read == (|w: Seq<char>| Some(number(w))));
    assert(contents == answers_of(group));
    assert(shows_scan(
        client::group_content(group, number, form),
        contents,
        number,
        form,
        start,
        end,
        lines,
    ));
}

proof fn group_text_shows_group(
    id: u32,
    group: Seq<OperationResult>,
    number: spec_fn(Seq<char>) -> u64,
    form: spec_fn(u64) -> Seq<char>,
)
    requires
        client::is_printable_group(group),
    ensures
        shows_group(client::group_text(id, group, number, form), id, group, number, form),
{
    client::scans_say_so(group);
    let block = client::group_text(id, group, number, form);
    let content = client::group_content(group, number, form);
    reveal_strlit("> ");
    reveal_strlit("ERROR ");
    reveal_strlit("> ERROR ");
    assert("> "@ + "ERROR "@ =~= "> ERROR "@);
    assert(block =~= mark_of(id, group) + content);
    assert(client::is_scan(group) == says_scan(group));
    if client::is_scan(group) {
        group_content_shows_scan(group, number, form);
    }
    assert(shows_content(content, group, number, form));
}

proof fn results_text_shows_results(
    results: Seq<CommandResult>,
    number: spec_fn(Seq<char>) -> u64,
    form: spec_fn(u64) -> Seq<char>,
)
    requires
        client::is_printable(results),
    ensures
        exists|ids: Seq<u32>, blocks: Seq<Seq<char>>| #[trigger]
            shows_results(
                client::results_text(results, number, form),
                results,
                ids,
                blocks,
                number,
                form,
            ),
{
    client::all_operations_are_collected(results);
    let ops = client::all_ops(results);
    let ids = client::op_ids(ops);
    client::op_ids_ascend(ops);
    client::every_operation_is_printed(results, number, form);
    let blocks = Seq::new(
        ids.len(),
        |k: int| client::group_text(ids[k], client::with_id(ops, ids[k]), number, form),
    );
    assert forall|k: int| 0 <= k < ids.len() implies shows_group(
        #[trigger] blocks[k],
        ids[k],
        of_operation(operations(results), ids[k]),
        number,
        form,
    ) by {
        client::groups_are_picked_by_id(ops, ids[k]);
        group_text_shows_group(ids[k], client::with_id(ops, ids[k]), number, form);
    }
    client::verdict_is_printed_last(results, number, form);
    assert(client::verdict(results) == verdict_of(results));
    assert(shows_results(
        client::results_text(results, number, form),
        results,
        ids,
        blocks,
        number,
        form,
    ));
}

/// The results of a command are shown whole: each operation once, in the order of the ids, with all
/// that it gave. The answers of several partitions to a scan are shown as one scan, which lists
/// every entry of every answer exactly once, in the order of the keys, behind two spaces. The last
/// line says `ABORTED` where any partition aborted, and `COMMITTED` where none did.
pub proof fn results_are_shown_whole<R: Fn(&str) -> u64, N: Fn(u64) -> String>(
    results: Vec<CommandResult>,
    extract_key_number: R,
    form_key: N,
    t: String,
    number: spec_fn(Seq<char>) -> u64,
    form: spec_fn(u64) -> Seq<char>,
)
    requires
        call_ensures(
            format_result::<R, N>,
            (Ok::<Vec<CommandResult>, String>(results), &extract_key_number, &form_key),
            t,
        ),
        forall|k: int|
            0 <= k < operations(results@).len() ==> has_form(
                of_operation(operations(results@), (#[trigger] operations(results@)[k]).id),
            ),
        reads(extract_key_number, number),
        writes(form_key, form),
    ensures
        exists|ids: Seq<u32>, blocks: Seq<Seq<char>>| #[trigger]
            shows_results(t@, results@, ids, blocks, number, form),
{
    assert(client::numbers_as(extract_key_number, number));
    assert(client::forms_as(form_key, form));
    forms_make_results_printable(results@);
    results_text_shows_results(results@, number, form);
}

/// Whether `block` holds all that the results of the operation `id` give: behind its id and the mark
/// of an error where it has one, the content of the only result, or a scan with every entry of
/// every answer exactly once, behind two spaces.
pub open spec fn holds_operation(block: Seq<char>, id: u32, group: Seq<OperationResult>) -> bool {
    if says_scan(group) {
        exists|a: Seq<char>, b: Seq<char>, lines: Seq<Seq<char>>|
            block == mark_of(id, group) + #[trigger] scan_with_lines(a, b, lines)
                && lines.to_multiset() == answers_of(group).map_values(
                |c: Seq<char>| answer_entries(c),
            ).flatten().to_multiset()
    } else {
        block == mark_of(id, group) + group[0].content@
    }
}

/// A scan from the key `a` to the key `b` with `lines` as its entries.
pub open spec fn scan_with_lines(
    a: Seq<char>,
    b: Seq<char>,
    lines: Seq<Seq<char>>,
) -> Seq<char> {
    "SCAN "@ + a + " "@ + b + " BEGIN"@ + lines.map_values(
        |l: Seq<char>| "\n  "@ + l,
    ).flatten() + "\nSCAN END"@
}

/// Whether `blocks` hold the operations of a command, each at the place of its id.
pub open spec fn holds_operations(
    blocks: Seq<Seq<char>>,
    ids: Seq<u32>,
    ops: Seq<OperationResult>,
) -> bool {
    &&& lists_ids(ids, ops)
    &&& blocks.len() == ids.len()
    &&& forall|k: int|
        0 <= k < ids.len() ==> holds_operation(
            #[trigger] blocks[k],
            ids[k],
            of_operation(ops, ids[k]),
        )
}

/// Whatever the key functions do, every operation of a command is shown, and every entry of its
/// scans, and last whether the command took effect.
pub proof fn nothing_is_lost_in_what_is_shown<R: Fn(&str) -> u64, N: Fn(u64) -> String>(
    results: Vec<CommandResult>,
    extract_key_number: R,
    form_key: N,
    t: String,
)
    requires
        call_ensures(
            format_result::<R, N>,
            (Ok::<Vec<CommandResult>, String>(results), &extract_key_number, &form_key),
            t,
        ),
    ensures
        exists|ids: Seq<u32>, blocks: Seq<Seq<char>>| #[trigger]
            holds_operations(blocks, ids, operations(results@)) && t@ == blocks.map_values(
                |b: Seq<char>| b + "\n"@,
            ).flatten() + verdict_of(results@),
{
    client::all_operations_are_collected(results@);
    let ops = client::all_ops(results@);
    let ids = client::op_ids(ops);
    client::op_ids_ascend(ops);
    let blocks = choose|blocks: Seq<Seq<char>>| #[trigger]
        client::holds_groups(blocks, ids, ops) && t@ == text::join(
            blocks.push(client::verdict(results@)),
            "\n"@,
        );
    assert(client::holds_results(t@, results@));
    client::blocks_are_joined(blocks, client::verdict(results@));
    assert(client::verdict(results@) == verdict_of(results@));
    assert forall|k: int| 0 <= k < ids.len() implies holds_operation(
        #[trigger] blocks[k],
        ids[k],
        of_operation(ops, ids[k]),
    ) by {
        client::groups_are_picked_by_id(ops, ids[k]);
        group_is_held(blocks[k], ids[k], client::with_id(ops, ids[k]));
    }
    assert(holds_operations(blocks, ids, operations(results@)));
}

proof fn group_is_held(block: Seq<char>, id: u32, group: Seq<OperationResult>)
    requires
        client::holds_group(block, id, group),
    ensures
        holds_operation(block, id, group),
{
    client::scans_say_so(group);
    let said = choose|said: Seq<char>| #[trigger]
        client::says_all(said, group) && block == text::decimal(id as nat) + "> "@ + (
        if client::some_error(group) {
            text::error_text(said)
        } else {
            said
        });
    reveal_strlit("> ");
    reveal_strlit("ERROR ");
    reveal_strlit("> ERROR ");
    assert("> "@ + "ERROR "@ =~= "> ERROR "@);
    assert(block =~= mark_of(id, group) + said);
    assert(client::is_scan(group) == says_scan(group));
    if client::is_scan(group) {
        let (a, b, lines) = choose|a: Seq<char>, b: Seq<char>, lines: Seq<Seq<char>>|
            said == #[trigger] scan::scan_text(a, b, client::indented(lines))
                && lines.to_multiset() == scan::entry_lines(
                client::contents(group),
                Marks::Any,
            ).to_multiset();
        answer_entries_are_kept(client::contents(group));
        assert(client::contents(group) == answers_of(group));
        scan::printed_scan_holds_all_lines(a, b, client::indented(lines));
        client::every_line_is_indented(lines);
        reveal_strlit("\n");
        reveal_strlit("  ");
        reveal_strlit("\n  ");
        let f = |l: Seq<char>| "\n"@ + l;
        let g = |l: Seq<char>| "\n  "@ + l;
        assert forall|i: int| 0 <= i < lines.len() implies client::indented(lines).map_values(
            f,
        )[i] == #[trigger] lines.map_values(g)[i] by {
            assert("\n"@ + ("  "@ + lines[i]) =~= "\n  "@ + lines[i]);
        }
        assert(client::indented(lines).map_values(f) =~= lines.map_values(g));
        assert(said == scan_with_lines(a, b, lines));
    }
}

/// Results without a scan are shown whole whatever the key functions do.
pub proof fn results_without_a_scan_need_no_keys<R: Fn(&str) -> u64, N: Fn(u64) -> String>(
    results: Vec<CommandResult>,
    extract_key_number: R,
    form_key: N,
    t: String,
    number: spec_fn(Seq<char>) -> u64,
    form: spec_fn(u64) -> Seq<char>,
)
    requires
        call_ensures(
            format_result::<R, N>,
            (Ok::<Vec<CommandResult>, String>(results), &extract_key_number, &form_key),
            t,
        ),
        forall|k: int|
            0 <= k < operations(results@).len() ==> has_form(
                of_operation(operations(results@), (#[trigger] operations(results@)[k]).id),
            ),
        forall|id: u32| !says_scan(#[trigger] of_operation(operations(results@), id)),
    ensures
        exists|ids: Seq<u32>, blocks: Seq<Seq<char>>| #[trigger]
            shows_results(t@, results@, ids, blocks, number, form),
{
    client::all_operations_are_collected(results@);
    let ops = client::all_ops(results@);
    assert forall|k: int| 0 <= k < client::op_ids(ops).len() implies !client::is_scan(
        client::with_id(ops, #[trigger] client::op_ids(ops)[k]),
    ) by {
        let id = client::op_ids(ops)[k];
        client::groups_are_picked_by_id(ops, id);
        client::scans_say_so(client::with_id(ops, id));
        assert(!says_scan(of_operation(operations(results@), id)));
    }
    assert(client::has_no_scan(results@));
    assert(client::prints_plain_results(results@, t@));
    assert(t@ == client::results_text(results@, number, form));
    forms_make_results_printable(results@);
    results_text_shows_results(results@, number, form);
}

/// A command that could not be sent or answered is shown as its error; what is shown of any other
/// ends in the verdict, whatever the key functions do.
pub proof fn verdict_comes_last<R: Fn(&str) -> u64, N: Fn(u64) -> String>(
    result: Result<Vec<CommandResult>, String>,
    extract_key_number: R,
    form_key: N,
    t: String,
)
    requires
        call_ensures(format_result::<R, N>, (result, &extract_key_number, &form_key), t),
    ensures
        match result {
            Err(e) => t@ == "ERROR "@ + e@,
            Ok(results) => if operations(results@).len() == 0 {
                t@ == verdict_of(results@)
            } else {
                exists|head: Seq<char>| t@ == #[trigger] (head + ("\n"@ + verdict_of(results@)))
            },
        },
{
    if let Ok(results) = result {
        client::all_operations_are_collected(results@);
        assert(client::verdict(results@) == verdict_of(results@));
        text::parts_stand_in_texts(t@, "\n"@ + client::verdict(results@));
    }
}

/// The results of one operation are shown whole.
pub proof fn operation_is_shown_whole<R: Fn(&str) -> u64, N: Fn(u64) -> String>(
    id: u32,
    group: Vec<OperationResult>,
    extract_key_number: R,
    form_key: N,
    t: String,
    number: spec_fn(Seq<char>) -> u64,
    form: spec_fn(u64) -> Seq<char>,
)
    requires
        call_ensures(format_group::<R, N>, (id, &group, &extract_key_number, &form_key), t),
        has_form(group@),
        reads(extract_key_number, number),
        writes(form_key, form),
    ensures
        shows_group(t@, id, group@, number, form),
{
    assert(client::numbers_as(extract_key_number, number));
    assert(client::forms_as(form_key, form));
    client::scans_say_so(group@);
    group_text_shows_group(id, group@, number, form);
}

/// Each of the operations that are asked for is shown, at its place, with its own results.
pub proof fn operations_are_shown_in_turn<R: Fn(&str) -> u64, N: Fn(u64) -> String>(
    ids: Vec<u32>,
    ops: Vec<OperationResult>,
    extract_key_number: R,
    form_key: N,
    output: Vec<String>,
    number: spec_fn(Seq<char>) -> u64,
    form: spec_fn(u64) -> Seq<char>,
    k: int,
)
    requires
        call_ensures(format_groups::<R, N>, (&ids, &ops, &extract_key_number, &form_key), output),
        reads(extract_key_number, number),
        writes(form_key, form),
        0 <= k < ids@.len(),
        has_form(of_operation(ops@, ids@[k])),
    ensures
        output@.len() == ids@.len(),
        shows_group(output@[k]@, ids@[k], of_operation(ops@, ids@[k]), number, form),
{
    assert(client::numbers_as(extract_key_number, number));
    assert(client::forms_as(form_key, form));
    client::groups_are_picked_by_id(ops@, ids@[k]);
    client::scans_say_so(client::with_id(ops@, ids@[k]));
    assert(text::texts(output@)[k] == output@[k]@);
    assert(text::texts(output@)[k] == client::group_text(
        ids@[k],
        client::with_id(ops@, ids@[k]),
        number,
        form,
    ));
    group_text_shows_group(ids@[k], client::with_id(ops@, ids@[k]), number, form);
}

/// Results can be shown exactly where each scan among the operations has an answer with a header,
/// and each other operation one result.
pub proof fn printable_results_have_a_form(results: &[CommandResult], b: bool)
    requires
        call_ensures(check_printable, (results,), b),
    ensures
        b <==> client::is_printable(results@),
        b <==> forall|k: int|
            0 <= k < operations(results@).len() ==> has_form(
                of_operation(operations(results@), (#[trigger] operations(results@)[k]).id),
            ),
{
    forms_make_results_printable(results@);
}

proof fn forms_make_results_printable(results: Seq<CommandResult>)
    ensures
        client::is_printable(results) <==> forall|k: int|
            0 <= k < operations(results).len() ==> has_form(
                of_operation(operations(results), (#[trigger] operations(results)[k]).id),
            ),
{
    client::all_operations_are_collected(results);
    let ops = client::all_ops(results);
    let ids = client::op_ids(ops);
    client::op_ids_ascend(ops);
    assert forall|id: u32| #[trigger]
        client::is_printable_group(client::with_id(ops, id)) == has_form(of_operation(ops, id)) by {
        client::groups_are_picked_by_id(ops, id);
        client::scans_say_so(client::with_id(ops, id));
    }
    if client::is_printable(results) {
        assert forall|k: int| 0 <= k < operations(results).len() implies has_form(
            of_operation(operations(results), (#[trigger] operations(results)[k]).id),
        ) by {
            assert(ids.contains(ops[k].id));
            let m = choose|m: int| 0 <= m < ids.len() && ids[m] == ops[k].id;
            assert(client::is_printable_group(client::with_id(ops, ids[m])));
        }
    } else {
        let m = choose|m: int|
            0 <= m < ids.len() && !client::is_printable_group(
                client::with_id(ops, #[trigger] ids[m]),
            );
        assert(ids.contains(ids[m]));
        let k = choose|k: int| 0 <= k < ops.len() && (#[trigger] ops[k]).id == ids[m];
        assert(!client::is_printable_group(client::with_id(ops, ops[k].id)));
        assert(!has_form(of_operation(operations(results), operations(results)[k].id)));
    }
}

} // verus!
