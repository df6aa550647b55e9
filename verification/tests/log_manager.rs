use kvstore::log_manager::{open_failure_message, Action, Event, LogManager, MAX_RETRIES};

type Manager = LogManager<u64, Vec<&'static str>>;

fn ready() -> Manager {
    let mut manager = Manager::new(None, 1024);
    assert_eq!(manager.run(Event::Opened), Action::Load);
    assert_eq!(manager.run(Event::Loaded(0)), Action::Receive);
    manager
}

fn message() -> Event<u64, Vec<&'static str>> {
    Event::AppendEntry {
        cmd_id: 7,
        ops: vec!["PUT"],
    }
}

#[test]
fn log_lies_at_the_given_path() {
    assert_eq!(Manager::new(Some(Some("logs".to_string())), 1).path(), "logs");
    assert_eq!(Manager::new(Some(None), 1).path(), "raft");
    assert_eq!(Manager::new(None, 1).path(), "raft");
    assert_eq!(Manager::new(None, 1024).max_segment_size(), 1024);
}

#[test]
fn manager_says_what_is_due() {
    let mut manager = Manager::new(None, 1024);
    assert_eq!(manager.action(), Action::Open);
    for event in [
        Event::OpenFailed,
        Event::Opened,
        Event::Loaded(1),
        Event::Planned,
        Event::Executed,
        message(),
        Event::AppendFailed,
        Event::Appended,
        Event::Responded,
        Event::Closed,
    ] {
        let action = manager.run(event);
        assert_eq!(manager.action(), action);
    }
    assert_eq!(manager.action(), Action::Stop);
}

#[test]
fn log_is_opened_once_more_after_a_failure() {
    let mut manager = Manager::new(None, 1024);
    assert_eq!(manager.run(Event::OpenFailed), Action::Open);
    assert_eq!(manager.run(Event::Opened), Action::Load);
    let mut manager = Manager::new(None, 1024);
    assert_eq!(manager.run(Event::OpenFailed), Action::Open);
    assert_eq!(manager.run(Event::OpenFailed), Action::Panic);
}

#[test]
fn manager_stops_with_the_error_of_the_second_try() {
    assert_eq!(open_failure_message("Busy"), "Failed to open log on retry: Busy");
    let opened: Result<(), &str> = Err("Busy");
    assert_eq!(
        open_failure_message(&format!("{:?}", opened.unwrap_err())),
        "Failed to open log on retry: \"Busy\""
    );
}

#[test]
fn what_cannot_happen_changes_nothing() {
    let mut manager = Manager::new(None, 1024);
    assert_eq!(manager.run(Event::Appended), Action::Open);
    assert_eq!(manager.run(message()), Action::Open);
    assert!(manager.pending().is_none());
    assert_eq!(manager.run(Event::Opened), Action::Load);
    let mut manager = ready();
    assert_eq!(manager.run(Event::Closed), Action::Stop);
    assert_eq!(manager.run(message()), Action::Stop);
    assert!(manager.pending().is_none());
}

#[test]
fn entries_are_replayed_in_order() {
    let mut manager = Manager::new(None, 1024);
    assert_eq!(manager.run(Event::Opened), Action::Load);
    assert_eq!(manager.run(Event::Loaded(3)), Action::Plan(0));
    assert_eq!(manager.run(Event::Planned), Action::Execute(0));
    assert_eq!(manager.run(Event::Executed), Action::Plan(1));
    assert_eq!(manager.run(Event::PlanFailed), Action::Plan(2));
    assert_eq!(manager.run(Event::Planned), Action::Execute(2));
    assert_eq!(manager.run(Event::Executed), Action::Receive);
}

#[test]
fn unreadable_log_is_taken_as_empty() {
    let mut manager = Manager::new(None, 1024);
    manager.run(Event::Opened);
    assert_eq!(manager.run(Event::LoadFailed), Action::Receive);
}

#[test]
fn message_is_appended_and_answered() {
    let mut manager = ready();
    assert!(manager.pending().is_none());
    assert_eq!(manager.run(message()), Action::Append { attempt: 1 });
    let entry = manager.pending().unwrap();
    assert_eq!((entry.term, entry.index), (0, 0));
    assert_eq!(entry.command.cmd_id, 7);
    assert_eq!(entry.command.ops, vec!["PUT"]);
    assert_eq!(manager.run(Event::Appended), Action::Respond(0));
    assert!(manager.pending().is_none());
    assert_eq!(manager.run(Event::Responded), Action::Receive);
    assert_eq!(manager.run(Event::Closed), Action::Stop);
}

#[test]
fn append_is_tried_again_up_to_the_limit() {
    let mut manager = ready();
    assert_eq!(manager.run(message()), Action::Append { attempt: 1 });
    for attempt in 2..=MAX_RETRIES + 1 {
        assert_eq!(manager.run(Event::AppendFailed), Action::Append { attempt });
        assert_eq!(manager.pending().unwrap().command.cmd_id, 7);
    }
    assert_eq!(manager.run(Event::AppendFailed), Action::Respond(0));
    assert_eq!(manager.run(Event::Responded), Action::Receive);
    assert_eq!(manager.run(message()), Action::Append { attempt: 1 });
    assert_eq!(manager.run(Event::AppendFailed), Action::Append { attempt: 2 });
    assert_eq!(manager.run(Event::Appended), Action::Respond(0));
}
