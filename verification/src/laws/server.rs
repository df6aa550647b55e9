//! What the server promises.
use crate::server;
use crate::server::{run_server, ServerConfig, ServerStep, Startup};
use vstd::prelude::*;

verus! {

/// Whether two optional strings hold the same text, or neither is there.
pub open spec fn same(a: Option<String>, b: Option<String>) -> bool {
    match (a, b) {
        (Some(x), Some(y)) => x@ == y@,
        (None, None) => true,
        _ => false,
    }
}

/// Every service is started with what the configuration says: the log manager at its log path, the
/// database at its database path, the executor for its node, the gateway at its address, and the
/// storage service only where what is stored is to outlive the server. They follow each other in
/// this order, each once, and then the server has ended well.
pub proof fn services_follow_the_configuration(
    config: ServerConfig,
    done: usize,
    outcome: Result<(), String>,
    next: ServerStep,
)
    requires
        call_ensures(run_server, (&config, done, outcome), next),
        outcome is Ok,
    ensures
        ({
            let more: int = if config.persistence_enabled {
                2
            } else {
                0
            };
            match next {
                ServerStep::Start(Startup::LogManager { log_path, max_segment_size }) => done == 0
                    && same(log_path, config.log_path) && max_segment_size == 1024,
                ServerStep::Start(Startup::Database { db_path, to_storage }) => done == 1 && same(
                    db_path,
                    config.db_path,
                ) && to_storage == config.persistence_enabled,
                ServerStep::Start(Startup::Executor { node_id }) => done == 2 && node_id
                    == config.node_id,
                ServerStep::Start(Startup::NewStorage) => done == 3 && config.persistence_enabled,
                ServerStep::Start(Startup::Storage) => done == 4 && config.persistence_enabled,
                ServerStep::Start(Startup::LockManager) => done == 3 + more,
                ServerStep::Start(Startup::Address { listen_addr }) => done == 4 + more
                    && listen_addr@ == config.listen_addr@,
                ServerStep::Start(Startup::Gateway) => done == 5 + more,
                ServerStep::End(end) => done >= 6 + more && end is Ok,
            }
        }),
{
    assert(server::startup(config).len() == if config.persistence_enabled {
        8
    } else {
        6int
    });
}

/// A step that failed ends the server with its error, whatever was to come.
pub proof fn failure_ends_the_server(
    config: ServerConfig,
    done: usize,
    e: String,
    next: ServerStep,
)
    requires
        call_ensures(run_server, (&config, done, Err::<(), String>(e)), next),
    ensures
        next matches ServerStep::End(Err(said)) && said@ == e@,
{
}

/// Exactly one step starts the log manager, one opens the database and one starts the executor;
/// each is the one that the configuration asks for.
pub proof fn each_service_is_started_once(config: ServerConfig, i: int)
    requires
        0 <= i < server::startup(config).len(),
    ensures
        server::startup(config)[i] is LogManager <==> i == 0,
        server::startup(config)[i] is Database <==> i == 1,
        server::startup(config)[i] is Executor <==> i == 2,
        server::startup(config)[i] matches server::StartupView::LogManager { log_path, .. }
            ==> match (log_path, config.log_path) {
            (Some(x), Some(y)) => x == y@,
            (None, None) => true,
            _ => false,
        },
        server::startup(config)[i] matches server::StartupView::Database { db_path, .. }
            ==> match (db_path, config.db_path) {
            (Some(x), Some(y)) => x == y@,
            (None, None) => true,
            _ => false,
        },
        server::startup(config)[i] matches server::StartupView::Executor { node_id } ==> node_id
            == config.node_id,
{
}

} // verus!
