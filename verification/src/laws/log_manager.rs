//! What the log manager promises.
use crate::log_manager;
use crate::log_manager::{
    open_failure_message, Action, Event, LogCommand, LogEntry, LogManager, Phase,
};
use vstd::prelude::*;

verus! {

/// A new manager works on the log at the path that it is given, or at `raft` where it is given none
/// that is a text, with segments of the size that it is given, and opens the log first.
pub proof fn log_lies_where_it_is_said<C, O>(
    log_path: Option<Option<String>>,
    max_segment_size: usize,
    m: LogManager<C, O>,
    path: &str,
    size: usize,
    action: Action,
    pending: Option<&LogEntry<C, O>>,
)
    requires
        call_ensures(LogManager::<C, O>::new, (log_path, max_segment_size), m),
        call_ensures(LogManager::<C, O>::path, (&m,), path),
        call_ensures(LogManager::<C, O>::max_segment_size, (&m,), size),
        call_ensures(LogManager::<C, O>::action, (&m,), action),
        call_ensures(LogManager::<C, O>::pending, (&m,), pending),
    ensures
        match log_path {
            Some(Some(p)) => path@ == p@,
            _ => path@ == "raft"@,
        },
        size == max_segment_size,
        action == Action::Open,
        pending is None,
{
}

/// The pending entry is there exactly while an entry is being appended, and is that entry.
pub proof fn pending_entry_is_being_appended<C, O>(
    m: LogManager<C, O>,
    pending: Option<&LogEntry<C, O>>,
    action: Action,
)
    requires
        call_ensures(LogManager::<C, O>::pending, (&m,), pending),
        call_ensures(LogManager::<C, O>::action, (&m,), action),
    ensures
        pending is Some <==> action is Append,
        m.at() matches Phase::Appending { entry, .. } ==> pending == Some(&entry),
{
}

/// Only what belongs to a phase changes it: an open log or one that could not be opened while it is
/// opened, its entries while it is read, and so on.
pub proof fn only_what_belongs_to_a_phase_changes_it<C, O>(phase: Phase<C, O>, event: Event<C, O>)
    ensures
        log_manager::next(phase, event) != phase ==> match phase {
            Phase::Opening { .. } => event is Opened || event is OpenFailed,
            Phase::Loading => event is Loaded || event is LoadFailed,
            Phase::Planning { .. } => event is Planned || event is PlanFailed,
            Phase::Executing { .. } => event is Executed,
            Phase::Waiting => event is AppendEntry || event is Closed,
            Phase::Appending { .. } => event is Appended || event is AppendFailed,
            Phase::Responding { .. } => event is Responded,
            Phase::Stopped | Phase::Failed => false,
        },
{
}

/// The message of a log that could not be opened holds all of the error.
pub proof fn open_failure_is_reported_in_full(e: &str, t: String)
    requires
        call_ensures(open_failure_message, (e,), t),
    ensures
        t@ == "Failed to open log on retry: "@ + e@,
{
}

/// The log is tried once more after it could not be opened, and given up after the second time;
/// once it is open, it is read.
pub proof fn log_is_tried_twice<C, O>()
    ensures
        ({
            let start = Phase::<C, O>::Opening { retried: false };
            &&& log_manager::course(start, seq![Event::Opened]) == (
                Phase::<C, O>::Loading,
                seq![Action::Load],
            )
            &&& log_manager::course(start, seq![Event::OpenFailed, Event::Opened]) == (
                Phase::<C, O>::Loading,
                seq![Action::Open, Action::Load],
            )
            &&& log_manager::course(start, seq![Event::OpenFailed, Event::OpenFailed]) == (
                Phase::<C, O>::Failed,
                seq![Action::Open, Action::Panic],
            )
        }),
{
    let start = Phase::<C, O>::Opening { retried: false };
    reveal_with_fuel(log_manager::course, 3);
    let a = seq![Event::<C, O>::Opened];
    let b = seq![Event::<C, O>::OpenFailed, Event::Opened];
    let c = seq![Event::<C, O>::OpenFailed, Event::OpenFailed];
    assert(a.drop_first() == Seq::<Event<C, O>>::empty());
    assert(b.drop_first() == seq![Event::<C, O>::Opened]);
    assert(c.drop_first() == seq![Event::<C, O>::OpenFailed]);
    assert(c.drop_first().drop_first() == Seq::<Event<C, O>>::empty());
    assert(log_manager::course(start, a).1 =~= seq![Action::Load]);
    assert(log_manager::course(start, b).1 =~= seq![Action::Open, Action::Load]);
    assert(log_manager::course(start, c).1 =~= seq![Action::Open, Action::Panic]);
}

/// A log that cannot be read counts as empty, and the manager ends when no more messages come.
pub proof fn manager_waits_and_ends<C, O>()
    ensures
        log_manager::next(Phase::<C, O>::Loading, Event::LoadFailed) == Phase::<C, O>::Waiting,
        log_manager::next(Phase::<C, O>::Loading, Event::Loaded(0)) == Phase::<C, O>::Waiting,
        log_manager::due(Phase::<C, O>::Waiting) == Action::Receive,
        log_manager::next(Phase::<C, O>::Waiting, Event::Closed) == Phase::<C, O>::Stopped,
        log_manager::due(Phase::<C, O>::Stopped) == Action::Stop,
{
}

/// The pending entry is the message as it came, with term and index zero, however often its append
/// failed.
pub proof fn message_stays_pending<C, O>(cmd_id: C, ops: O, failures: nat)
    requires
        failures <= 3,
    ensures
        log_manager::course(
            Phase::Waiting,
            seq![Event::AppendEntry { cmd_id, ops }] + Seq::new(
                failures,
                |i: int| Event::<C, O>::AppendFailed,
            ),
        ).0 == (Phase::<C, O>::Appending {
            entry: LogEntry { term: 0, index: 0, command: LogCommand { cmd_id, ops } },
            retry_count: failures as usize,
        }),
{
    let entry = LogEntry { term: 0, index: 0, command: LogCommand { cmd_id, ops } };
    let failed = Seq::new(failures, |i: int| Event::<C, O>::AppendFailed);
    let events = seq![Event::AppendEntry { cmd_id, ops }] + failed;
    assert(events.drop_first() == failed);
    entry_stays(entry, 0, failures);
}

proof fn entry_stays<C, O>(entry: LogEntry<C, O>, retry_count: usize, failures: nat)
    requires
        retry_count + failures <= 3,
    ensures
        log_manager::course(
            Phase::Appending { entry, retry_count },
            Seq::new(failures, |i: int| Event::<C, O>::AppendFailed),
        ).0 == (Phase::<C, O>::Appending { entry, retry_count: (retry_count + failures) as usize }),
    decreases failures,
{
    if failures > 0 {
        let events = Seq::new(failures, |i: int| Event::<C, O>::AppendFailed);
        let fewer = (failures - 1) as nat;
        assert(events.drop_first() == Seq::new(fewer, |i: int| Event::<C, O>::AppendFailed));
        entry_stays(entry, (retry_count + 1) as usize, fewer);
    }
}

/// A message is tried up to four times, numbered from one on, until it is appended; either way it
/// is then answered once, with the index zero, and the next message is waited for.
pub proof fn append_is_tried_up_to_four_times<C, O>(
    cmd_id: C,
    ops: O,
    failures: nat,
    appended: bool,
)
    requires
        if appended {
            failures <= 3
        } else {
            failures == 4
        },
    ensures
        log_manager::course(
            Phase::Waiting,
            seq![Event::AppendEntry { cmd_id, ops }] + Seq::new(
                failures,
                |i: int| Event::<C, O>::AppendFailed,
            ) + (if appended {
                seq![Event::Appended]
            } else {
                Seq::empty()
            }) + seq![Event::Responded],
        ) == (
            Phase::<C, O>::Waiting,
            Seq::new(
                failures + (if appended {
                    1nat
                } else {
                    0
                }),
                |i: int| Action::Append { attempt: (i + 1) as usize },
            ) + seq![Action::Respond(0), Action::Receive],
        ),
{
    let outcomes = Seq::new(failures, |i: int| false) + (if appended {
        seq![true]
    } else {
        Seq::empty()
    });
    log_manager::message_is_appended_and_answered(cmd_id, ops, outcomes);
    assert(log_manager::attempt_events::<C, O>(outcomes) =~= Seq::new(
        failures,
        |i: int| Event::<C, O>::AppendFailed,
    ) + (if appended {
        seq![Event::Appended]
    } else {
        Seq::empty()
    }));
    assert(seq![Event::AppendEntry { cmd_id, ops }] + log_manager::attempt_events(outcomes) + seq![
        Event::Responded,
    ] =~= seq![Event::AppendEntry { cmd_id, ops }] + Seq::new(
        failures,
        |i: int| Event::<C, O>::AppendFailed,
    ) + (if appended {
        seq![Event::Appended]
    } else {
        Seq::empty()
    }) + seq![Event::Responded]);
    assert(log_manager::append_actions(0, outcomes.len()) =~= Seq::new(
        failures + (if appended {
            1nat
        } else {
            0
        }),
        |i: int| Action::Append { attempt: (i + 1) as usize },
    ) + seq![Action::Respond(0), Action::Receive]);
}

/// Whether an action makes a plan of an entry.
pub open spec fn plans_entry() -> spec_fn(Action) -> bool {
    |a: Action| a is Plan
}

/// Whether an action executes the plan of an entry.
pub open spec fn executes_entry() -> spec_fn(Action) -> bool {
    |a: Action| a is Execute
}

/// A plan is made of every entry of the log, once and in order, whatever their number, and executed
/// exactly where it could be made.
pub proof fn every_entry_is_replayed<C, O>(count: usize, plans: Seq<bool>)
    requires
        plans.len() == count,
    ensures
        ({
            let (end, actions) = log_manager::course(
                Phase::<C, O>::Loading,
                seq![Event::Loaded(count)] + log_manager::replay_events(plans),
            );
            &&& end == Phase::<C, O>::Waiting
            &&& actions.filter(plans_entry()) == Seq::new(
                count as nat,
                |i: int| Action::Plan(i as usize),
            )
            &&& actions.filter(executes_entry()) == Seq::new(count as nat, |i: int| i).filter(
                |i: int| plans[i],
            ).map_values(|i: int| Action::Execute(i as usize))
            &&& actions.last() == Action::Receive
        }),
{
    log_manager::log_is_replayed::<C, O>(count, plans);
    replayed_in_order(plans, 0);
    let p = |i: int| plans[i];
    let q = |i: int| plans[i - 0];
    assert(p =~= q);
    assert(Seq::new(count as nat, |i: int| i) =~= Seq::new(plans.len(), |i: int| 0 + i));
    assert(Seq::new(count as nat, |i: int| Action::Plan(i as usize)) =~= Seq::new(
        plans.len(),
        |i: int| Action::Plan((0 + i) as usize),
    ));
}

proof fn replayed_in_order(plans: Seq<bool>, from: nat)
    ensures
        log_manager::replay_actions(plans, from).filter(plans_entry()) == Seq::new(
            plans.len(),
            |i: int| Action::Plan((from + i) as usize),
        ),
        log_manager::replay_actions(plans, from).filter(executes_entry()) == Seq::new(
            plans.len(),
            |i: int| from + i,
        ).filter(|i: int| plans[i - from]).map_values(|i: int| Action::Execute(i as usize)),
        log_manager::replay_actions(plans, from).len() > 0,
        log_manager::replay_actions(plans, from).last() == Action::Receive,
    decreases plans.len(),
{
    let f = |i: int| Action::Execute(i as usize);
    let q = |i: int| plans[i - from];
    let all = Seq::new(plans.len(), |i: int| from + i);
    reveal_with_fuel(Seq::filter, 3);
    if plans.len() == 0 {
        let last = seq![Action::Receive];
        assert(last.drop_last() == Seq::<Action>::empty());
        assert(last.filter(plans_entry()) =~= Seq::new(
            plans.len(),
            |i: int| Action::Plan((from + i) as usize),
        ));
        assert(last.filter(executes_entry()) =~= all.filter(q).map_values(f));
    } else {
        let more = plans.drop_first();
        replayed_in_order(more, from + 1);
        let later = log_manager::replay_actions(more, from + 1);
        let head = if plans[0] {
            seq![Action::Plan(from as usize), Action::Execute(from as usize)]
        } else {
            seq![Action::Plan(from as usize)]
        };
        Seq::filter_distributes_over_add(head, later, plans_entry());
        Seq::filter_distributes_over_add(head, later, executes_entry());
        let plan = seq![Action::Plan(from as usize)];
        assert(plan.drop_last() =~= Seq::<Action>::empty());
        if plans[0] {
            assert(head.drop_last() =~= plan);
        }
        assert(head.filter(plans_entry()) =~= plan);
        assert(head.filter(executes_entry()) =~= if plans[0] {
            seq![Action::Execute(from as usize)]
        } else {
            Seq::empty()
        });
        assert(plan + Seq::new(more.len(), |i: int| Action::Plan((from + 1 + i) as usize))
            =~= Seq::new(plans.len(), |i: int| Action::Plan((from + i) as usize)));
        let rest = Seq::new(more.len(), |i: int| from + 1 + i);
        let one = seq![from as int];
        assert(all =~= one + rest);
        Seq::filter_distributes_over_add(one, rest, q);
        assert(one.drop_last() =~= Seq::<int>::empty());
        let r = |i: int| more[i - (from + 1)];
        picks_agree(rest, q, r);
        assert(one.filter(q) =~= if plans[0] {
            one
        } else {
            Seq::empty()
        });
        assert(all.filter(q).map_values(f) =~= one.filter(q).map_values(f) + rest.filter(
            r,
        ).map_values(f));
        assert(rest =~= Seq::new(more.len(), |i: int| (from + 1) as nat + i));
    }
}

proof fn picks_agree(s: Seq<int>, p: spec_fn(int) -> bool, q: spec_fn(int) -> bool)
    requires
        forall|i: int| 0 <= i < s.len() ==> p(#[trigger] s[i]) == q(s[i]),
    ensures
        s.filter(p) == s.filter(q),
    decreases s.len(),
{
    reveal(Seq::filter);
    if s.len() > 0 {
        assert(p(s[s.len() - 1]) == q(s[s.len() - 1]));
        picks_agree(s.drop_last(), p, q);
    }
}

} // verus!
