//! The server: which of its services are started, in which order and with what, and how the start
//! ends.
use vstd::prelude::*;

verus! {

/// How large a segment of the log may become, in bytes.
pub const MAX_SEGMENT_SIZE: usize = 1024;

/// What the configuration says of the server's services.
#[derive(Debug)]
pub struct ServerConfig {
    /// Which node of the store the server is.
    pub node_id: u32,
    /// Where the gateway listens.
    pub listen_addr: String,
    /// Where the database lies, where it is kept.
    pub db_path: Option<String>,
    /// Where the log lies, where it is said.
    pub log_path: Option<String>,
    /// Whether what is stored outlives the server.
    pub persistence_enabled: bool,
}

/// One step of starting the server.
#[derive(Debug)]
pub enum Startup {
    /// Start the log manager.
    LogManager { log_path: Option<String>, max_segment_size: usize },
    /// Open the database. Where `to_storage` holds, it sends what it stores to the storage service.
    Database { db_path: Option<String>, to_storage: bool },
    /// Start the executor of this node on the database.
    Executor { node_id: u32 },
    /// Make the storage service.
    NewStorage,
    /// Start the storage service.
    Storage,
    /// Start the lock manager.
    LockManager,
    /// Read the address that this text holds.
    Address { listen_addr: String },
    /// Serve the gateway at that address until it ends.
    Gateway,
}

/// The text of an optional string.
pub open spec fn optional(s: Option<String>) -> Option<Seq<char>> {
    match s {
        Some(t) => Some(t@),
        None => None,
    }
}

/// What a step says.
pub enum StartupView {
    LogManager { log_path: Option<Seq<char>>, max_segment_size: nat },
    Database { db_path: Option<Seq<char>>, to_storage: bool },
    Executor { node_id: u32 },
    NewStorage,
    Storage,
    LockManager,
    Address { listen_addr: Seq<char> },
    Gateway,
}

impl View for Startup {
    type V = StartupView;

    open spec fn view(&self) -> StartupView {
        match self {
            Startup::LogManager { log_path, max_segment_size } => StartupView::LogManager {
                log_path: optional(*log_path),
                max_segment_size: *max_segment_size as nat,
            },
            Startup::Database { db_path, to_storage } => StartupView::Database {
                db_path: optional(*db_path),
                to_storage: *to_storage,
            },
            Startup::Executor { node_id } => StartupView::Executor { node_id: *node_id },
            Startup::NewStorage => StartupView::NewStorage,
            Startup::Storage => StartupView::Storage,
            Startup::LockManager => StartupView::LockManager,
            Startup::Address { listen_addr } => StartupView::Address { listen_addr: listen_addr@ },
            Startup::Gateway => StartupView::Gateway,
        }
    }
}

/// The steps by which a server is started, in order.
pub open spec fn startup(config: ServerConfig) -> Seq<StartupView> {
    seq![
        StartupView::LogManager {
            log_path: optional(config.log_path),
            max_segment_size: MAX_SEGMENT_SIZE as nat,
        },
        StartupView::Database {
            db_path: optional(config.db_path),
            to_storage: config.persistence_enabled,
        },
        StartupView::Executor { node_id: config.node_id },
    ] + (if config.persistence_enabled {
        seq![StartupView::NewStorage, StartupView::Storage]
    } else {
        Seq::empty()
    }) + seq![
        StartupView::LockManager,
        StartupView::Address { listen_addr: config.listen_addr@ },
        StartupView::Gateway,
    ]
}

/// The views of a vector of steps.
pub open spec fn startup_views(v: Seq<Startup>) -> Seq<StartupView> {
    v.map_values(|s: Startup| s@)
}

/// A copy of an optional string.
fn copy_of(s: &Option<String>) -> (t: Option<String>)
    ensures
        optional(t) == optional(*s),
{
    match s {
        Some(text) => Some(text.clone()),
        None => None,
    }
}

/// The steps by which a server is started, in order. The storage service is started only where
/// what is stored is to outlive the server.
fn startup_steps(config: &ServerConfig) -> (steps: Vec<Startup>)
    ensures
        startup_views(steps@) == startup(*config),
{
    let mut steps: Vec<Startup> = Vec::new();
    steps.push(
        Startup::LogManager {
            log_path: copy_of(&config.log_path),
            max_segment_size: MAX_SEGMENT_SIZE,
        },
    );
    steps.push(
        Startup::Database {
            db_path: copy_of(&config.db_path),
            to_storage: config.persistence_enabled,
        },
    );
    steps.push(Startup::Executor { node_id: config.node_id });
    if config.persistence_enabled {
        steps.push(Startup::NewStorage);
        steps.push(Startup::Storage);
    }
    steps.push(Startup::LockManager);
    steps.push(Startup::Address { listen_addr: config.listen_addr.clone() });
    steps.push(Startup::Gateway);
    assert(startup_views(steps@) == startup(*config));
    steps
}

/// What is to be done next to start the server.
#[derive(Debug)]
pub enum ServerStep {
    /// Take this step.
    Start(Startup),
    /// The server has ended, in this way.
    End(Result<(), String>),
}

/// What such a step says.
pub enum ServerStepView {
    Start(StartupView),
    End(Result<(), Seq<char>>),
}

impl View for ServerStep {
    type V = ServerStepView;

    open spec fn view(&self) -> ServerStepView {
        match self {
            ServerStep::Start(s) => ServerStepView::Start(s@),
            ServerStep::End(r) => ServerStepView::End(how(*r)),
        }
    }
}

/// How something went: well, or with an error of this text.
pub open spec fn how(r: Result<(), String>) -> Result<(), Seq<char>> {
    match r {
        Ok(_) => Ok(()),
        Err(e) => Err(e@),
    }
}

/// What is to be done once `done` steps have been taken, of which the last went as `outcome`
/// says: the next step, or nothing more where a step failed or none is left.
pub open spec fn server_step(
    config: ServerConfig,
    done: nat,
    outcome: Result<(), Seq<char>>,
) -> ServerStepView {
    match outcome {
        Err(e) => ServerStepView::End(Err(e)),
        Ok(_) => if done < startup(config).len() {
            ServerStepView::Start(startup(config)[done as int])
        } else {
            ServerStepView::End(Ok(()))
        },
    }
}

/// Says what is to be done once `done` steps have been taken, of which the last went as `outcome`
/// says. The first call says that none has been taken and that all is well.
///
/// A database that cannot be opened, a storage service that cannot be made, an address that
/// cannot be read and a gateway that ends in an error are steps that failed: the server ends with
/// that error, and nothing more is started.
pub fn run_server(
    config: &ServerConfig,
    done: usize,
    outcome: Result<(), String>,
) -> (next: ServerStep)
    ensures
        next@ == server_step(*config, done as nat, how(outcome)),
{
    match outcome {
        Err(e) => ServerStep::End(Err(e)),
        Ok(_) => {
            let mut steps = startup_steps(config);
            assert(startup(*config).len() == steps@.len());
            if done < steps.len() {
                assert(startup(*config)[done as int] == steps@[done as int]@);
                ServerStep::Start(steps.remove(done))
            } else {
                ServerStep::End(Ok(()))
            }
        },
    }
}

/// The steps that are taken, and how the server ends, from the call after `done` steps on, of
/// which the last went as `last` says, when the steps that follow go as `outcomes` says. `None`
/// where the outcomes do not suffice.
pub open spec fn course(
    config: ServerConfig,
    done: nat,
    last: Result<(), Seq<char>>,
    outcomes: Seq<Result<(), Seq<char>>>,
) -> (Seq<StartupView>, Option<Result<(), Seq<char>>>)
    decreases outcomes.len(),
{
    match server_step(config, done, last) {
        ServerStepView::End(r) => (Seq::empty(), Some(r)),
        ServerStepView::Start(step) => if outcomes.len() == 0 {
            (seq![step], None)
        } else {
            let (steps, end) = course(config, done + 1, outcomes[0], outcomes.drop_first());
            (seq![step] + steps, end)
        },
    }
}

/// A start whose step at the place `k` fails takes exactly the steps up to that one, and ends
/// with its error.
pub proof fn failed_step_ends_the_start(
    config: ServerConfig,
    k: nat,
    e: Seq<char>,
    outcomes: Seq<Result<(), Seq<char>>>,
)
    requires
        k < startup(config).len(),
        k < outcomes.len(),
        forall|i: int| 0 <= i < k ==> #[trigger] outcomes[i] == Ok::<(), Seq<char>>(()),
        outcomes[k as int] == Err::<(), Seq<char>>(e),
    ensures
        course(config, 0, Ok(()), outcomes) == (
            startup(config).take(k as int + 1),
            Some(Err::<(), Seq<char>>(e)),
        ),
{
    failure_comes(config, 0, k, e, outcomes);
    assert(startup(config).subrange(0, k as int + 1) == startup(config).take(k as int + 1));
}

proof fn failure_comes(
    config: ServerConfig,
    done: nat,
    k: nat,
    e: Seq<char>,
    outcomes: Seq<Result<(), Seq<char>>>,
)
    requires
        done <= k < startup(config).len(),
        k - done < outcomes.len(),
        forall|i: int| 0 <= i < k - done ==> #[trigger] outcomes[i] == Ok::<(), Seq<char>>(()),
        outcomes[k - done] == Err::<(), Seq<char>>(e),
    ensures
        course(config, done, Ok(()), outcomes) == (
            startup(config).subrange(done as int, k as int + 1),
            Some(Err::<(), Seq<char>>(e)),
        ),
    decreases k - done,
{
    let all = startup(config);
    let rest = outcomes.drop_first();
    if done < k {
        assert(outcomes[0] == Ok::<(), Seq<char>>(()));
        failure_comes(config, done + 1, k, e, rest);
    } else {
        assert(course(config, done + 1, outcomes[0], rest).0 == Seq::<StartupView>::empty());
    }
    assert(all.subrange(done as int, k as int + 1) == seq![all[done as int]] + all.subrange(
        done as int + 1,
        k as int + 1,
    ));
}

/// A start of which no step fails takes all steps, and ends well.
pub proof fn sound_start_takes_all_steps(
    config: ServerConfig,
    outcomes: Seq<Result<(), Seq<char>>>,
)
    requires
        outcomes.len() >= startup(config).len(),
        forall|i: int|
            0 <= i < startup(config).len() ==> #[trigger] outcomes[i] == Ok::<(), Seq<char>>(()),
    ensures
        course(config, 0, Ok(()), outcomes) == (startup(config), Some(Ok::<(), Seq<char>>(()))),
{
    start_goes_on(config, 0, outcomes);
    assert(startup(config).skip(0) == startup(config));
}

proof fn start_goes_on(config: ServerConfig, done: nat, outcomes: Seq<Result<(), Seq<char>>>)
    requires
        done <= startup(config).len(),
        outcomes.len() >= startup(config).len() - done,
        forall|i: int|
            0 <= i < startup(config).len() - done ==> #[trigger] outcomes[i] == Ok::<
                (),
                Seq<char>,
            >(()),
    ensures
        course(config, done, Ok(()), outcomes) == (
            startup(config).skip(done as int),
            Some(Ok::<(), Seq<char>>(())),
        ),
    decreases startup(config).len() - done,
{
    let all = startup(config);
    if done < all.len() {
        assert(outcomes[0] == Ok::<(), Seq<char>>(()));
        start_goes_on(config, done + 1, outcomes.drop_first());
        assert(all.skip(done as int) == seq![all[done as int]] + all.skip(done as int + 1));
    } else {
        assert(all.skip(done as int) == Seq::<StartupView>::empty());
    }
}

/// The database sends to the storage service exactly where that service is started.
pub proof fn storage_has_a_sender(config: ServerConfig)
    ensures
        startup(config).contains(StartupView::Storage) <==> exists|i: int|
            0 <= i < startup(config).len() && (#[trigger] startup(config)[i] matches
                StartupView::Database { to_storage, .. } && to_storage),
{
    let steps = startup(config);
    if config.persistence_enabled {
        assert(steps[4] == StartupView::Storage);
        assert(steps[1] matches StartupView::Database { to_storage, .. } && to_storage);
    } else {
        assert(steps[1] matches StartupView::Database { to_storage, .. } && !to_storage);
    }
}

/// Whether a step can be taken only once the step `before` went well.
pub open spec fn needs(step: StartupView, before: StartupView) -> bool {
    match step {
        StartupView::Executor { .. } => before is Database,
        StartupView::Storage => before is NewStorage,
        StartupView::Gateway => before is Address,
        _ => false,
    }
}

/// The executor is not started where the database could not be opened, nor the storage service
/// where it could not be made, and nothing is served where the address could not be read: a start
/// whose step at the place `k` fails takes no step that needs it.
pub proof fn failed_step_is_not_built_on(
    config: ServerConfig,
    k: nat,
    e: Seq<char>,
    outcomes: Seq<Result<(), Seq<char>>>,
)
    requires
        k < startup(config).len(),
        k < outcomes.len(),
        forall|i: int| 0 <= i < k ==> #[trigger] outcomes[i] == Ok::<(), Seq<char>>(()),
        outcomes[k as int] == Err::<(), Seq<char>>(e),
    ensures
        ({
            let (steps, end) = course(config, 0, Ok(()), outcomes);
            &&& steps.last() == startup(config)[k as int]
            &&& forall|i: int|
                0 <= i < steps.len() ==> !needs(#[trigger] steps[i], startup(config)[k as int])
            &&& end == Some(Err::<(), Seq<char>>(e))
        }),
{
    failed_step_ends_the_start(config, k, e, outcomes);
    let steps = startup(config).take(k as int + 1);
    assert forall|i: int| 0 <= i < steps.len() implies !needs(
        #[trigger] steps[i],
        startup(config)[k as int],
    ) by {
        assert(steps[i] == startup(config)[i]);
    }
}

/// Everything else has been started before the gateway serves, at the address of the
/// configuration.
pub proof fn gateway_is_last(config: ServerConfig)
    ensures
        forall|i: int|
            0 <= i < startup(config).len() ==> (#[trigger] startup(config)[i] is Gateway <==> i
                == startup(config).len() - 1),
        startup(config)[startup(config).len() - 2] == (StartupView::Address {
            listen_addr: config.listen_addr@,
        }),
{
}

} // verus!
