use kvstore::server::{run_server, ServerConfig, ServerStep, Startup};

fn config(persistence_enabled: bool) -> ServerConfig {
    ServerConfig {
        node_id: 3,
        listen_addr: "0.0.0.0:24000".to_string(),
        db_path: Some("db".to_string()),
        log_path: None,
        persistence_enabled,
    }
}

/// Starts a server of which the step at the place `failing` fails: the steps that are taken, and
/// how the server ends.
fn start(config: &ServerConfig, failing: Option<usize>) -> (Vec<Startup>, Result<(), String>) {
    let mut steps = Vec::new();
    let mut outcome = Ok(());
    loop {
        match run_server(config, steps.len(), outcome) {
            ServerStep::Start(step) => {
                outcome = if failing == Some(steps.len()) {
                    Err("broken".to_string())
                } else {
                    Ok(())
                };
                steps.push(step);
            }
            ServerStep::End(end) => return (steps, end),
        }
    }
}

#[test]
fn server_without_persistence_starts_no_storage() {
    let (steps, end) = start(&config(false), None);
    assert_eq!(end, Ok(()));
    assert_eq!(steps.len(), 6);
    assert!(matches!(
        &steps[0],
        Startup::LogManager { log_path: None, max_segment_size: 1024 }
    ));
    assert!(matches!(
        &steps[1],
        Startup::Database { db_path: Some(p), to_storage: false } if p == "db"
    ));
    assert!(matches!(&steps[2], Startup::Executor { node_id: 3 }));
    assert!(matches!(&steps[3], Startup::LockManager));
    assert!(matches!(&steps[4], Startup::Address { listen_addr } if listen_addr == "0.0.0.0:24000"));
    assert!(matches!(&steps[5], Startup::Gateway));
}

#[test]
fn server_with_persistence_starts_storage_behind_the_executor() {
    let (steps, end) = start(&config(true), None);
    assert_eq!(end, Ok(()));
    assert_eq!(steps.len(), 8);
    assert!(matches!(&steps[1], Startup::Database { to_storage: true, .. }));
    assert!(matches!(&steps[2], Startup::Executor { .. }));
    assert!(matches!(&steps[3], Startup::NewStorage));
    assert!(matches!(&steps[4], Startup::Storage));
    assert!(matches!(&steps[7], Startup::Gateway));
}

#[test]
fn failed_step_ends_the_start_with_its_error() {
    for failing in 0..8 {
        let (steps, end) = start(&config(true), Some(failing));
        assert_eq!(steps.len(), failing + 1);
        assert_eq!(end, Err("broken".to_string()));
    }
}

#[test]
fn failed_step_is_not_built_on() {
    let (steps, _) = start(&config(true), Some(1));
    assert!(matches!(steps.last(), Some(Startup::Database { .. })));
    assert!(!steps.iter().any(|s| matches!(s, Startup::Executor { .. })));
    let (steps, _) = start(&config(true), Some(3));
    assert!(matches!(steps.last(), Some(Startup::NewStorage)));
    assert!(!steps.iter().any(|s| matches!(s, Startup::Storage | Startup::LockManager)));
    for (persistence_enabled, address) in [(false, 4), (true, 6)] {
        let (steps, _) = start(&config(persistence_enabled), Some(address));
        assert!(matches!(steps.last(), Some(Startup::Address { .. })));
        assert!(!steps.iter().any(|s| matches!(s, Startup::Gateway)));
    }
}

#[test]
fn server_whose_gateway_ended_has_ended() {
    assert!(matches!(run_server(&config(false), 6, Ok(())), ServerStep::End(Ok(()))));
    assert!(matches!(run_server(&config(false), usize::MAX, Ok(())), ServerStep::End(Ok(()))));
    assert!(matches!(
        run_server(&config(false), 6, Err("refused".to_string())),
        ServerStep::End(Err(e)) if e == "refused"
    ));
}
