//! The log manager: opens the log, replays what it holds into the database, and then appends one
//! entry for each message that it receives.
//!
//! The manager decides; the one who runs it opens, reads and writes. Each call of
//! [`LogManager::run`] takes what happened last and says what is to be done next.
use vstd::prelude::*;

verus! {

/// How often an append that failed is tried again.
pub const MAX_RETRIES: usize = 3;

/// A command as it stands in the log: its id, and its operations.
#[derive(Debug)]
pub struct LogCommand<C, O> {
    pub cmd_id: C,
    pub ops: O,
}

/// An entry of the log.
#[derive(Debug)]
pub struct LogEntry<C, O> {
    pub term: u64,
    pub index: u64,
    pub command: LogCommand<C, O>,
}

/// Where the manager stands.
#[derive(Debug)]
pub enum Phase<C, O> {
    /// The log is being opened, for the second time or the first.
    Opening { retried: bool },
    /// The entries of the log are being read.
    Loading,
    /// Of `count` entries, those before `next` have been dealt with, and a plan is being made of
    /// that one.
    Planning { next: usize, count: usize },
    /// Of `count` entries, those before `next` have been dealt with, and the plan of that one is
    /// being executed.
    Executing { next: usize, count: usize },
    /// No message is at hand.
    Waiting,
    /// The entry for a message is being appended, after so many failures.
    Appending { entry: LogEntry<C, O>, retry_count: usize },
    /// The message's sender is being answered with this index.
    Responding { index: u64 },
    /// No more messages come.
    Stopped,
    /// The log could not be opened.
    Failed,
}

/// What happened.
#[derive(Debug)]
pub enum Event<C, O> {
    /// The log was opened.
    Opened,
    /// The log could not be opened.
    OpenFailed,
    /// The log holds this many entries.
    Loaded(usize),
    /// The entries could not be read.
    LoadFailed,
    /// A plan was made of the entry.
    Planned,
    /// No plan could be made of the entry.
    PlanFailed,
    /// The plan was executed.
    Executed,
    /// A message asks for these operations to be appended.
    AppendEntry { cmd_id: C, ops: O },
    /// The entry was appended.
    Appended,
    /// The entry could not be appended.
    AppendFailed,
    /// The answer was sent, or its receiver was gone.
    Responded,
    /// No more messages come.
    Closed,
}

/// What is to be done.
#[derive(Clone, Copy, Debug, PartialEq, Eq, Structural)]
pub enum Action {
    /// Open the log.
    Open,
    /// Read the entries of the log.
    Load,
    /// Make a plan of the entry at this place.
    Plan(usize),
    /// Execute the plan of the entry at this place.
    Execute(usize),
    /// Wait for a message.
    Receive,
    /// Append the pending entry; this is the attempt of that number.
    Append { attempt: usize },
    /// Answer the message with this index.
    Respond(u64),
    /// End.
    Stop,
    /// Stop with the message of [`open_failure_message`]: the log could not be opened on a second
    /// try either.
    Panic,
}

/// Whether `event` can happen in `phase`.
pub open spec fn is_expected<C, O>(phase: Phase<C, O>, event: Event<C, O>) -> bool {
    match phase {
        Phase::Opening { .. } => event is Opened || event is OpenFailed,
        Phase::Loading => event is Loaded || event is LoadFailed,
        Phase::Planning { .. } => event is Planned || event is PlanFailed,
        Phase::Executing { .. } => event is Executed,
        Phase::Waiting => event is AppendEntry || event is Closed,
        Phase::Appending { .. } => event is Appended || event is AppendFailed,
        Phase::Responding { .. } => event is Responded,
        Phase::Stopped | Phase::Failed => false,
    }
}

/// The phase in which `next` of `count` entries have been dealt with.
pub open spec fn replay_from<C, O>(next: usize, count: usize) -> Phase<C, O> {
    if next < count {
        Phase::Planning { next, count }
    } else {
        Phase::Waiting
    }
}

/// The entry for a command. Term and index of all entries are zero.
pub open spec fn entry_for<C, O>(cmd_id: C, ops: O) -> LogEntry<C, O> {
    LogEntry { term: 0, index: 0, command: LogCommand { cmd_id, ops } }
}

/// The phase that follows `phase` when `event` happens.
pub open spec fn next<C, O>(phase: Phase<C, O>, event: Event<C, O>) -> Phase<C, O> {
    match (phase, event) {
        (Phase::Opening { .. }, Event::Opened) => Phase::Loading,
        (Phase::Opening { retried }, Event::OpenFailed) => if retried {
            Phase::Failed
        } else {
            Phase::Opening { retried: true }
        },
        (Phase::Loading, Event::Loaded(count)) => replay_from(0, count),
        (Phase::Loading, Event::LoadFailed) => replay_from(0, 0),
        (Phase::Planning { next, count }, Event::Planned) => Phase::Executing { next, count },
        (Phase::Planning { next, count }, Event::PlanFailed) => replay_from(
            (next + 1) as usize,
            count,
        ),
        (Phase::Executing { next, count }, Event::Executed) => replay_from(
            (next + 1) as usize,
            count,
        ),
        (Phase::Waiting, Event::AppendEntry { cmd_id, ops }) => Phase::Appending {
            entry: entry_for(cmd_id, ops),
            retry_count: 0,
        },
        (Phase::Waiting, Event::Closed) => Phase::Stopped,
        (Phase::Appending { entry, .. }, Event::Appended) => Phase::Responding {
            index: entry.index,
        },
        (Phase::Appending { entry, retry_count }, Event::AppendFailed) => if retry_count
            < MAX_RETRIES {
            Phase::Appending { entry, retry_count: (retry_count + 1) as usize }
        } else {
            Phase::Responding { index: entry.index }
        },
        (Phase::Responding { .. }, Event::Responded) => Phase::Waiting,
        _ => phase,
    }
}

/// What is to be done in a phase.
pub open spec fn due<C, O>(phase: Phase<C, O>) -> Action {
    match phase {
        Phase::Opening { .. } => Action::Open,
        Phase::Loading => Action::Load,
        Phase::Planning { next, .. } => Action::Plan(next),
        Phase::Executing { next, .. } => Action::Execute(next),
        Phase::Waiting => Action::Receive,
        Phase::Appending { retry_count, .. } => Action::Append {
            attempt: (retry_count + 1) as usize,
        },
        Phase::Responding { index } => Action::Respond(index),
        Phase::Stopped => Action::Stop,
        Phase::Failed => Action::Panic,
    }
}

/// Whether a phase can be reached.
pub open spec fn is_valid<C, O>(phase: Phase<C, O>) -> bool {
    match phase {
        Phase::Planning { next, count } => next < count,
        Phase::Executing { next, count } => next < count,
        Phase::Appending { entry, retry_count } => retry_count <= MAX_RETRIES && entry.term == 0
            && entry.index == 0,
        Phase::Responding { index } => index == 0,
        _ => true,
    }
}

/// What the manager stops with when the log could not be opened on a second try either, which
/// failed with the error `e`.
pub open spec fn open_failure(e: Seq<char>) -> Seq<char> {
    "Failed to open log on retry: "@ + e
}

/// The message to stop with when the log could not be opened on a second try either.
pub fn open_failure_message(e: &str) -> (t: String)
    ensures
        t@ == open_failure(e@),
{
    let mut t = "Failed to open log on retry: ".to_owned();
    t.append(e);
    t
}

/// The path of the log: the given one, or `raft` where none is given or the given one is no
/// text.
pub open spec fn path_for(log_path: Option<Option<Seq<char>>>) -> Seq<char> {
    match log_path {
        Some(Some(p)) => p,
        _ => "raft"@,
    }
}

/// The text of an optional path that may be no text.
pub open spec fn given(log_path: Option<Option<String>>) -> Option<Option<Seq<char>>> {
    match log_path {
        Some(Some(p)) => Some(Some(p@)),
        Some(None) => Some(None),
        None => None,
    }
}

/// The log manager.
#[derive(Debug)]
pub struct LogManager<C, O> {
    path: String,
    max_segment_size: usize,
    phase: Phase<C, O>,
}

impl<C, O> LogManager<C, O> {
    /// Where the log lies.
    pub closed spec fn log_path(self) -> Seq<char> {
        self.path@
    }

    /// How large a segment of the log may become, in bytes.
    pub closed spec fn segment_size(self) -> usize {
        self.max_segment_size
    }

    /// Where the manager stands.
    pub closed spec fn at(self) -> Phase<C, O> {
        self.phase
    }

    /// The manager stands where it can have come to.
    #[verifier::type_invariant]
    spec fn wf(self) -> bool {
        is_valid(self.phase)
    }

    /// A manager that is to open the log as its first action.
    ///
    /// `log_path` is the path of the log, where one is given; `Some(None)` stands for one that is
    /// no text. `max_segment_size` is how large a segment of the log may become, in bytes.
    pub fn new(log_path: Option<Option<String>>, max_segment_size: usize) -> (m: Self)
        ensures
            m.log_path() == path_for(given(log_path)),
            m.segment_size() == max_segment_size,
            m.at() == (Phase::<C, O>::Opening { retried: false }),
            due(m.at()) == Action::Open,
    {
        let path = match log_path {
            Some(Some(p)) => p,
            _ => "raft".to_owned(),
        };
        LogManager { path, max_segment_size, phase: Phase::Opening { retried: false } }
    }

    /// Where the log lies.
    pub fn path(&self) -> (p: &str)
        ensures
            p@ == self.log_path(),
    {
        self.path.as_str()
    }

    /// How large a segment of the log may become, in bytes.
    pub fn max_segment_size(&self) -> (n: usize)
        ensures
            n == self.segment_size(),
    {
        self.max_segment_size
    }

    /// The entry that is being appended.
    pub fn pending(&self) -> (e: Option<&LogEntry<C, O>>)
        ensures
            match self.at() {
                Phase::Appending { entry, .. } => e == Some(&entry),
                _ => e is None,
            },
    {
        match &self.phase {
            Phase::Appending { entry, .. } => Some(entry),
            _ => None,
        }
    }

    /// What is to be done now.
    pub fn action(&self) -> (action: Action)
        ensures
            action == due(self.at()),
            is_valid(self.at()),
    {
        proof {
            use_type_invariant(self);
        }
        match &self.phase {
            Phase::Opening { .. } => Action::Open,
            Phase::Loading => Action::Load,
            Phase::Planning { next, .. } => Action::Plan(*next),
            Phase::Executing { next, .. } => Action::Execute(*next),
            Phase::Waiting => Action::Receive,
            Phase::Appending { retry_count, .. } => Action::Append { attempt: *retry_count + 1 },
            Phase::Responding { index } => Action::Respond(*index),
            Phase::Stopped => Action::Stop,
            Phase::Failed => Action::Panic,
        }
    }

    /// The phase in which `next` of `count` entries have been dealt with.
    fn replay(next: usize, count: usize) -> (phase: Phase<C, O>)
        ensures
            phase == replay_from::<C, O>(next, count),
    {
        if next < count {
            Phase::Planning { next, count }
        } else {
            Phase::Waiting
        }
    }

    /// Takes what happened and says what is to be done next. What cannot happen changes nothing.
    pub fn run(&mut self, event: Event<C, O>) -> (action: Action)
        ensures
            is_valid(final(self).at()),
            final(self).log_path() == old(self).log_path(),
            final(self).segment_size() == old(self).segment_size(),
            final(self).at() == next(old(self).at(), event),
            action == due(final(self).at()),
    {
        proof {
            use_type_invariant(&*self);
        }
        let mut phase = Phase::Stopped;
        std::mem::swap(&mut phase, &mut self.phase);
        self.phase = match (phase, event) {
            (Phase::Opening { .. }, Event::Opened) => Phase::Loading,
            (Phase::Opening { retried }, Event::OpenFailed) => {
                if retried {
                    Phase::Failed
                } else {
                    Phase::Opening { retried: true }
                }
            },
            (Phase::Loading, Event::Loaded(count)) => Self::replay(0, count),
            (Phase::Loading, Event::LoadFailed) => Phase::Waiting,
            (Phase::Planning { next, count }, Event::Planned) => Phase::Executing { next, count },
            (Phase::Planning { next, count }, Event::PlanFailed) => Self::replay(next + 1, count),
            (Phase::Executing { next, count }, Event::Executed) => Self::replay(next + 1, count),
            (Phase::Waiting, Event::AppendEntry { cmd_id, ops }) => {
                let entry = LogEntry { term: 0, index: 0, command: LogCommand { cmd_id, ops } };
                Phase::Appending { entry, retry_count: 0 }
            },
            (Phase::Waiting, Event::Closed) => Phase::Stopped,
            (Phase::Appending { entry, .. }, Event::Appended) => {
                Phase::Responding { index: entry.index }
            },
            (Phase::Appending { entry, retry_count }, Event::AppendFailed) => {
                if retry_count < MAX_RETRIES {
                    Phase::Appending { entry, retry_count: retry_count + 1 }
                } else {
                    Phase::Responding { index: entry.index }
                }
            },
            (Phase::Responding { .. }, Event::Responded) => Phase::Waiting,
            (phase, _) => phase,
        };
        self.action()
    }
}

/// Where the manager stands after `events`, and what was to be done after each of them.
pub open spec fn course<C, O>(
    phase: Phase<C, O>,
    events: Seq<Event<C, O>>,
) -> (Phase<C, O>, Seq<Action>)
    decreases events.len(),
{
    if events.len() == 0 {
        (phase, Seq::empty())
    } else {
        let after = next(phase, events[0]);
        let (end, actions) = course(after, events.drop_first());
        (end, seq![due(after)] + actions)
    }
}

/// Whether `events` can happen from `phase` on, one after the other.
pub open spec fn can_happen<C, O>(phase: Phase<C, O>, events: Seq<Event<C, O>>) -> bool
    decreases events.len(),
{
    events.len() > 0 ==> is_expected(phase, events[0]) && can_happen(
        next(phase, events[0]),
        events.drop_first(),
    )
}

/// How many of `events` are messages.
pub open spec fn messages<C, O>(events: Seq<Event<C, O>>) -> nat
    decreases events.len(),
{
    if events.len() == 0 {
        0
    } else {
        (if events[0] is AppendEntry {
            1nat
        } else {
            0
        }) + messages(events.drop_first())
    }
}

/// How many of `actions` are answers.
pub open spec fn answers(actions: Seq<Action>) -> nat
    decreases actions.len(),
{
    if actions.len() == 0 {
        0
    } else {
        (if actions[0] is Respond {
            1nat
        } else {
            0
        }) + answers(actions.drop_first())
    }
}

/// How many of `actions` open the log.
pub open spec fn opens(actions: Seq<Action>) -> nat
    decreases actions.len(),
{
    if actions.len() == 0 {
        0
    } else {
        (if actions[0] is Open {
            1nat
        } else {
            0
        }) + opens(actions.drop_first())
    }
}

/// How many messages are being dealt with in a phase.
pub open spec fn at_hand<C, O>(phase: Phase<C, O>) -> nat {
    if phase is Appending {
        1
    } else {
        0
    }
}

/// Whether an action keeps the manager's limits: an append is tried no more than once more than
/// [`MAX_RETRIES`] says, and an answer names the index zero.
pub open spec fn keeps_limits(action: Action) -> bool {
    match action {
        Action::Append { attempt } => 1 <= attempt <= MAX_RETRIES + 1,
        Action::Respond(index) => index == 0,
        _ => true,
    }
}

/// What cannot happen in a phase changes nothing.
pub proof fn unexpected_event_changes_nothing<C, O>(phase: Phase<C, O>, event: Event<C, O>)
    requires
        !is_expected(phase, event),
    ensures
        next(phase, event) == phase,
{
}

/// Every phase that the manager comes to is one that it can have come to.
pub proof fn phases_stay_valid<C, O>(phase: Phase<C, O>, events: Seq<Event<C, O>>)
    requires
        is_valid(phase),
    ensures
        is_valid(course(phase, events).0),
    decreases events.len(),
{
    if events.len() > 0 {
        phases_stay_valid(next(phase, events[0]), events.drop_first());
    }
}

/// Whatever happens, each message is answered once, but for the one that is at hand.
pub proof fn each_message_is_answered<C, O>(phase: Phase<C, O>, events: Seq<Event<C, O>>)
    requires
        can_happen(phase, events),
    ensures
        answers(course(phase, events).1) + at_hand(course(phase, events).0) == messages(events)
            + at_hand(phase),
    decreases events.len(),
{
    if events.len() > 0 {
        let after = next(phase, events[0]);
        let actions = course(after, events.drop_first()).1;
        each_message_is_answered(after, events.drop_first());
        assert((seq![due(after)] + actions).drop_first() == actions);
    }
}

/// Whatever happens, no append is tried more often than the limit, and every answer names the
/// index zero.
pub proof fn limits_are_kept<C, O>(phase: Phase<C, O>, events: Seq<Event<C, O>>)
    requires
        is_valid(phase),
    ensures
        forall|i: int|
            0 <= i < course(phase, events).1.len() ==> keeps_limits(
                #[trigger] course(phase, events).1[i],
            ),
    decreases events.len(),
{
    if events.len() > 0 {
        let after = next(phase, events[0]);
        let actions = course(after, events.drop_first()).1;
        limits_are_kept(after, events.drop_first());
        assert forall|i: int| 0 <= i < course(phase, events).1.len() implies keeps_limits(
            #[trigger] course(phase, events).1[i],
        ) by {
            if i > 0 {
                assert(course(phase, events).1[i] == actions[i - 1]);
            }
        }
    }
}

/// Whatever happens from the start on, the log is opened first, and at most once more.
pub proof fn log_is_opened_at_most_twice<C, O>(events: Seq<Event<C, O>>)
    requires
        can_happen(Phase::Opening { retried: false }, events),
    ensures
        ({
            let start = Phase::<C, O>::Opening { retried: false };
            &&& due(start) == Action::Open
            &&& opens(seq![due(start)] + course(start, events).1) <= 2
        }),
{
    let start = Phase::<C, O>::Opening { retried: false };
    let actions = course(start, events).1;
    opens_are_bounded(start, events);
    assert((seq![due(start)] + actions).drop_first() == actions);
}

proof fn opens_are_bounded<C, O>(phase: Phase<C, O>, events: Seq<Event<C, O>>)
    requires
        can_happen(phase, events),
    ensures
        opens(course(phase, events).1) <= (if phase == (Phase::<C, O>::Opening { retried: false }) {
            1nat
        } else {
            0
        }),
    decreases events.len(),
{
    if events.len() > 0 {
        let after = next(phase, events[0]);
        let actions = course(after, events.drop_first()).1;
        opens_are_bounded(after, events.drop_first());
        assert((seq![due(after)] + actions).drop_first() == actions);
    }
}

/// What happens when an entry is appended and the attempts go as `outcomes` says.
pub open spec fn attempt_events<C, O>(outcomes: Seq<bool>) -> Seq<Event<C, O>> {
    outcomes.map_values(
        |ok: bool|
            if ok {
                Event::<C, O>::Appended
            } else {
                Event::AppendFailed
            },
    )
}

/// Whether `outcomes` are those of all attempts to append one entry: up to the first that
/// succeeds, or as many as there may be.
pub open spec fn are_all_attempts(outcomes: Seq<bool>) -> bool {
    &&& 1 <= outcomes.len() <= MAX_RETRIES + 1
    &&& forall|i: int| 0 <= i < outcomes.len() - 1 ==> !#[trigger] outcomes[i]
    &&& outcomes.last() || outcomes.len() == MAX_RETRIES + 1
}

/// The appends of one entry from the attempt after `retry_count` failures on, and the answer.
pub open spec fn append_actions(retry_count: nat, attempts: nat) -> Seq<Action> {
    Seq::new(
        attempts,
        |i: int| Action::Append { attempt: (retry_count + 1 + i) as usize },
    ) + seq![Action::Respond(0), Action::Receive]
}

/// A message is appended until an attempt succeeds or the attempts are used up. Either way it is
/// then answered with the index zero, and the next message is waited for.
pub proof fn message_is_appended_and_answered<C, O>(cmd_id: C, ops: O, outcomes: Seq<bool>)
    requires
        are_all_attempts(outcomes),
    ensures
        course(
            Phase::Waiting,
            seq![Event::AppendEntry { cmd_id, ops }] + attempt_events(outcomes) + seq![
                Event::Responded,
            ],
        ) == (Phase::<C, O>::Waiting, append_actions(0, outcomes.len())),
{
    let rest = attempt_events::<C, O>(outcomes) + seq![Event::Responded];
    let events = seq![Event::AppendEntry { cmd_id, ops }] + attempt_events(outcomes) + seq![
        Event::Responded,
    ];
    assert(events.drop_first() == rest);
    attempts_go_on(entry_for(cmd_id, ops), 0, outcomes);
    assert(append_actions(0, outcomes.len()) == seq![Action::Append { attempt: 1 }]
        + append_actions(0, outcomes.len()).drop_first());
}

proof fn attempts_go_on<C, O>(entry: LogEntry<C, O>, retry_count: usize, outcomes: Seq<bool>)
    requires
        entry.index == 0,
        1 <= outcomes.len(),
        retry_count + outcomes.len() <= MAX_RETRIES + 1,
        forall|i: int| 0 <= i < outcomes.len() - 1 ==> !#[trigger] outcomes[i],
        outcomes.last() || retry_count + outcomes.len() == MAX_RETRIES + 1,
    ensures
        course(
            Phase::Appending { entry, retry_count },
            attempt_events(outcomes) + seq![Event::Responded],
        ) == (
            Phase::<C, O>::Waiting,
            append_actions(retry_count as nat, outcomes.len()).drop_first(),
        ),
    decreases outcomes.len(),
{
    let phase = Phase::Appending { entry, retry_count };
    let events = attempt_events::<C, O>(outcomes) + seq![Event::Responded];
    let want = append_actions(retry_count as nat, outcomes.len()).drop_first();
    let after = next(phase, events[0]);
    if outcomes.len() == 1 {
        let last = seq![Event::<C, O>::Responded];
        assert(events.drop_first() == last);
        reveal_with_fuel(course, 3);
        assert(last.drop_first() == Seq::<Event<C, O>>::empty());
        assert(want == seq![Action::Respond(0), Action::Receive]);
        assert(course(phase, events).1 == want);
    } else {
        assert(!outcomes[0]);
        let more = outcomes.drop_first();
        assert forall|i: int| 0 <= i < more.len() - 1 implies !#[trigger] more[i] by {
            assert(!outcomes[i + 1]);
        }
        attempts_go_on(entry, (retry_count + 1) as usize, more);
        assert(events.drop_first() == attempt_events::<C, O>(more) + seq![Event::Responded]);
        let inner = append_actions((retry_count + 1) as nat, more.len());
        assert(want =~= seq![due(after)] + inner.drop_first());
    }
}

/// What happens when entries are replayed and plans can be made of them as `plans` says.
pub open spec fn replay_events<C, O>(plans: Seq<bool>) -> Seq<Event<C, O>>
    decreases plans.len(),
{
    if plans.len() == 0 {
        Seq::empty()
    } else {
        (if plans[0] {
            seq![Event::Planned, Event::Executed]
        } else {
            seq![Event::PlanFailed]
        }) + replay_events(plans.drop_first())
    }
}

/// What is done with entries of which plans can be made as `plans` says, the first of them at
/// the place `from`: a plan is made of each in turn, and executed where it could be made. Then
/// messages are waited for.
pub open spec fn replay_actions(plans: Seq<bool>, from: nat) -> Seq<Action>
    decreases plans.len(),
{
    if plans.len() == 0 {
        seq![Action::Receive]
    } else {
        (if plans[0] {
            seq![Action::Plan(from as usize), Action::Execute(from as usize)]
        } else {
            seq![Action::Plan(from as usize)]
        }) + replay_actions(plans.drop_first(), from + 1)
    }
}

/// The entries of the log are replayed in order, each once; one of which no plan can be made is
/// passed over, and the others are replayed none the less.
pub proof fn log_is_replayed<C, O>(count: usize, plans: Seq<bool>)
    requires
        plans.len() == count,
    ensures
        course(Phase::<C, O>::Loading, seq![Event::Loaded(count)] + replay_events(plans)) == (
            Phase::<C, O>::Waiting,
            replay_actions(plans, 0),
        ),
{
    let events = seq![Event::<C, O>::Loaded(count)] + replay_events(plans);
    assert(events.drop_first() == replay_events::<C, O>(plans));
    replay_goes_on::<C, O>(0, count, plans);
    let after = replay_from::<C, O>(0, count);
    assert(course(Phase::Loading, events).1 == seq![due(after)] + course(
        after,
        replay_events(plans),
    ).1);
}

proof fn replay_goes_on<C, O>(from: usize, count: usize, plans: Seq<bool>)
    requires
        from + plans.len() == count,
    ensures
        ({
            let phase = replay_from::<C, O>(from, count);
            let (end, actions) = course(phase, replay_events(plans));
            end == Phase::<C, O>::Waiting && seq![due(phase)] + actions == replay_actions(
                plans,
                from as nat,
            )
        }),
    decreases plans.len(),
{
    let phase = replay_from::<C, O>(from, count);
    let action = due(phase);
    let events = replay_events::<C, O>(plans);
    if plans.len() == 0 {
        assert(seq![action] + course(phase, events).1 == seq![Action::Receive]);
    } else {
        let more = plans.drop_first();
        let later = replay_events::<C, O>(more);
        replay_goes_on::<C, O>((from + 1) as usize, count, more);
        let after = replay_from::<C, O>((from + 1) as usize, count);
        let first = due(after);
        let tail = course(after, later).1;
        if plans[0] {
            assert(events.drop_first() == seq![Event::<C, O>::Executed] + later);
            assert(events.drop_first().drop_first() == later);
            reveal_with_fuel(course, 3);
            assert(course(phase, events).1 == seq![Action::Execute(from)] + (seq![first] + tail));
            assert(seq![action] + (seq![Action::Execute(from)] + (seq![first] + tail)) == seq![
                Action::Plan(from),
                Action::Execute(from),
            ] + (seq![first] + tail));
        } else {
            assert(events.drop_first() == later);
            assert(course(phase, events).1 == seq![first] + tail);
        }
    }
}

} // verus!
