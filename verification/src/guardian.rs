//! The guardian: it watches the network, logs in when a portal is in the way, and backs off
//! when that does not help.
//!
//! It is a machine of states. What takes time or touches the system - fetching, reading the
//! configuration, sleeping, the clock - is an [`Action`] that the guardian asks for; how it
//! went comes back as an [`Event`]. From outside, the guardian is told three things: log in
//! now ([`Guardian::kick`]), read the configuration again ([`Guardian::request_reload`]), and
//! stop ([`Guardian::stop`]).

use vstd::prelude::*;
use serde_json::Value;
use std::time::Duration;
use crate::auth;
use crate::auth::AuthOutcome;
use crate::config;
use crate::config::Config;
use crate::http;
use crate::json;
use crate::netcheck;
use crate::netcheck::NetStatus;
use crate::text;
use crate::time;

verus! {

/// Where the state of the guardian is kept for others to read.
pub const RUN_DIR: &'static str = "/var/run/campus-auth-guardian";

/// The file with the state of the guardian. It holds no credentials.
pub const STATUS_FILE: &'static str = "/var/run/campus-auth-guardian/status.json";

/// How long a check of the network may take, in seconds.
pub const CHECK_TIMEOUT_SECS: u64 = 8;

/// How long the guardian pauses between two turns, in milliseconds.
pub const PAUSE_MILLIS: u64 = 500;

/// How long the guardian sleeps at most before it looks whether something is asked of it, in
/// nanoseconds.
pub const SLICE_NANOS: u64 = 100_000_000;

/// What the guardian is doing.
#[derive(Debug, Clone, Copy, PartialEq, Eq, Structural)]
pub enum GuardianState {
    Stopped,
    Monitoring,
    Authenticating,
}

/// The name of a state, which the user interface goes by.
pub open spec fn state_name(s: GuardianState) -> Seq<char> {
    match s {
        GuardianState::Stopped => "stopped"@,
        GuardianState::Monitoring => "monitoring"@,
        GuardianState::Authenticating => "authenticating"@,
    }
}

impl GuardianState {
    /// The name of the state.
    pub fn as_str(self) -> (r: &'static str)
        ensures
            r@ == state_name(self),
    {
        match self {
            GuardianState::Stopped => "stopped",
            GuardianState::Monitoring => "monitoring",
            GuardianState::Authenticating => "authenticating",
        }
    }
}

// ---------------------------------------------------------------------------
// Backoff
// ---------------------------------------------------------------------------

/// The longest backoff, in seconds.
pub const MAX_BACKOFF_SECS: u64 = 600;

/// The seconds until the next check after `failures` failures in a row: the retry interval,
/// doubled with every further failure, and never more than the longest backoff.
pub open spec fn backoff_secs(retry: int, failures: int) -> int {
    let doublings = if failures - 1 < 10 {
        failures - 1
    } else {
        10
    };
    let secs = retry * vstd::arithmetic::power2::pow2(doublings as nat);
    if secs < MAX_BACKOFF_SECS {
        secs
    } else {
        MAX_BACKOFF_SECS as int
    }
}

/// The time until the next check after `failures` failures in a row, in nanoseconds.
pub open spec fn backoff(c: config::Settings, failures: int) -> int {
    if failures == 0 {
        c.check_interval
    } else {
        time::seconds(backoff_secs(time::whole_seconds(c.retry_interval), failures))
    }
}

/// The time until the next check after `failures` failures in a row.
pub fn backoff_delay(cfg: &Config, failures: u32) -> (r: Duration)
    ensures
        time::nanos(r) == backoff(cfg@, failures as int),
{
    if failures == 0 {
        return cfg.check_interval;
    }
    let doublings: u32 = if failures - 1 < 10 {
        failures - 1
    } else {
        10
    };
    let retry: u64 = cfg.retry_interval.as_secs();
    let mut secs: u64 = if retry < MAX_BACKOFF_SECS {
        retry
    } else {
        MAX_BACKOFF_SECS
    };
    let mut i: u32 = 0;
    let ghost mut full: int = retry as int;
    proof {
        vstd::arithmetic::power2::lemma2_to64();
    }
    while i < doublings
        invariant
            i <= doublings,
            full == retry * vstd::arithmetic::power2::pow2(i as nat),
            full >= 0,
            secs == (if full < MAX_BACKOFF_SECS {
                full
            } else {
                MAX_BACKOFF_SECS as int
            }),
        decreases doublings - i,
    {
        proof {
            vstd::arithmetic::power2::lemma_pow2_unfold((i + 1) as nat);
            let p = vstd::arithmetic::power2::pow2(i as nat) as int;
            assert(retry * (2 * p) == 2 * (retry * p)) by (nonlinear_arith);
            full = 2 * full;
        }
        secs = if secs * 2 < MAX_BACKOFF_SECS {
            secs * 2
        } else {
            MAX_BACKOFF_SECS
        };
        i += 1;
    }
    Duration::from_secs(secs)
}

// ---------------------------------------------------------------------------
// The state
// ---------------------------------------------------------------------------

/// What the guardian found and did lately.
struct Snapshot {
    net: Option<NetStatus>,
    last_auth: Option<AuthOutcome>,
    last_auth_ts: Option<u64>,
    last_net_ts: Option<u64>,
    consecutive_failures: u32,
    next_check_secs: u64,
}

/// What the guardian found and did lately; the times are in seconds since 1970.
#[verifier::ext_equal]
pub ghost struct SnapshotView {
    pub net: Option<netcheck::NetView>,
    pub last_auth: Option<auth::AuthView>,
    pub last_auth_ts: Option<u64>,
    pub last_net_ts: Option<u64>,
    pub consecutive_failures: int,
    pub next_check_secs: int,
}

impl View for Snapshot {
    type V = SnapshotView;

    closed spec fn view(&self) -> SnapshotView {
        SnapshotView {
            net: match self.net {
                Some(n) => Some(n@),
                None => None,
            },
            last_auth: match self.last_auth {
                Some(o) => Some(o@),
                None => None,
            },
            last_auth_ts: self.last_auth_ts,
            last_net_ts: self.last_net_ts,
            consecutive_failures: self.consecutive_failures as int,
            next_check_secs: self.next_check_secs as int,
        }
    }
}

/// The snapshot of a guardian that has done nothing yet.
pub open spec fn no_snapshot() -> SnapshotView {
    SnapshotView {
        net: None,
        last_auth: None,
        last_auth_ts: None,
        last_net_ts: None,
        consecutive_failures: 0,
        next_check_secs: 0,
    }
}

/// What the guardian waits for, as [`PhaseView`] lists it.
enum Phase {
    Top,
    Reloading,
    Kicked,
    Checking,
    Attempt { attempt: u32, status: NetStatus },
    Between { attempt: u32, status: NetStatus },
    Noting,
    Concluding { span: Duration },
    Ended,
}

/// What the guardian waits for.
pub ghost enum PhaseView {
    /// The next turn.
    Top,
    /// The configuration that it asked for.
    Reloading,
    /// The outcome of a login that it was told to make.
    Kicked,
    /// The outcome of a check.
    Checking,
    /// The outcome of an attempt of a burst, which a check with this result brought on.
    Attempt { attempt: int, status: netcheck::NetView },
    /// The end of the wait after an attempt.
    Between { attempt: int, status: netcheck::NetView },
    /// That its state has been published after a login that it was told to make.
    Noting,
    /// That its state has been published after a check; the next check is that many
    /// nanoseconds later.
    Concluding { span: int },
    /// Nothing: it has stopped.
    Ended,
}

impl View for Phase {
    type V = PhaseView;

    closed spec fn view(&self) -> PhaseView {
        match *self {
            Phase::Top => PhaseView::Top,
            Phase::Reloading => PhaseView::Reloading,
            Phase::Kicked => PhaseView::Kicked,
            Phase::Checking => PhaseView::Checking,
            Phase::Attempt { attempt, status } => PhaseView::Attempt {
                attempt: attempt as int,
                status: status@,
            },
            Phase::Between { attempt, status } => PhaseView::Between {
                attempt: attempt as int,
                status: status@,
            },
            Phase::Noting => PhaseView::Noting,
            Phase::Concluding { span } => PhaseView::Concluding { span: time::nanos(span) as int },
            Phase::Ended => PhaseView::Ended,
        }
    }
}

/// The guardian.
pub struct Guardian {
    running: bool,
    manual_kick: bool,
    reload: bool,
    shutdown: bool,
    state: GuardianState,
    cfg: Config,
    snapshot: Snapshot,
    failures: u32,
    next_check: u128,
    phase: Phase,
}

/// The state of the guardian.
#[verifier::ext_equal]
pub ghost struct Model {
    /// Whether it logs in of its own accord.
    pub running: bool,
    /// Whether it is told to log in now.
    pub manual_kick: bool,
    /// Whether it is told to read its configuration again.
    pub reload: bool,
    /// Whether it is told to stop.
    pub shutdown: bool,
    pub state: GuardianState,
    pub cfg: config::Settings,
    pub snapshot: SnapshotView,
    /// The failures in a row.
    pub failures: int,
    /// When the next check is due, in nanoseconds of a clock that never runs backwards.
    pub next_check: int,
    pub phase: PhaseView,
}

impl View for Guardian {
    type V = Model;

    closed spec fn view(&self) -> Model {
        Model {
            running: self.running,
            manual_kick: self.manual_kick,
            reload: self.reload,
            shutdown: self.shutdown,
            state: self.state,
            cfg: self.cfg@,
            snapshot: self.snapshot@,
            failures: self.failures as int,
            next_check: self.next_check as int,
            phase: self.phase@,
        }
    }
}

/// What the guardian asks for.
pub enum Action {
    /// Read the configuration file.
    ReadConfig,
    /// Log in; `ac` holds what a redirect told of the access controller and the session.
    Authenticate { ac: Option<(String, String, String)> },
    /// Fetch `url` and judge the network by it.
    CheckNet { url: String },
    /// Publish the state.
    Publish,
    /// Pause for a moment, or less where something is asked of the guardian meanwhile.
    Pause,
    /// Wait for a time, or less where something is asked of the guardian meanwhile.
    Wait { span: Duration },
    /// Publish the state and end.
    Exit,
}

/// What the guardian asks for, as [`Action`] lists it.
pub ghost enum ActionView {
    ReadConfig,
    Authenticate { ac: Option<(Seq<char>, Seq<char>, Seq<char>)> },
    CheckNet { url: Seq<char> },
    Publish,
    Pause,
    Wait { span: int },
    Exit,
}

impl View for Action {
    type V = ActionView;

    open spec fn view(&self) -> ActionView {
        match *self {
            Action::ReadConfig => ActionView::ReadConfig,
            Action::Authenticate { ac } => ActionView::Authenticate {
                ac: match ac {
                    Some((ip, name, user)) => Some((ip@, name@, user@)),
                    None => None,
                },
            },
            Action::CheckNet { url } => ActionView::CheckNet { url: url@ },
            Action::Publish => ActionView::Publish,
            Action::Pause => ActionView::Pause,
            Action::Wait { span } => ActionView::Wait { span: time::nanos(span) as int },
            Action::Exit => ActionView::Exit,
        }
    }
}

/// How an action went.
pub enum Event {
    /// A turn begins: at the start, and after a pause.
    Turn,
    /// The configuration that was read; none where the file could not be read.
    ConfigRead { loaded: Option<Config> },
    /// How the login ended.
    AuthDone { outcome: AuthOutcome },
    /// What the check found.
    NetDone { status: NetStatus },
    /// The state is published.
    Published,
    /// The wait is over.
    Waited,
}

/// How an action went, as [`Event`] lists it.
pub ghost enum EventView {
    Turn,
    ConfigRead { loaded: Option<config::Settings> },
    AuthDone { outcome: auth::AuthView },
    NetDone { status: netcheck::NetView },
    Published,
    Waited,
}

impl View for Event {
    type V = EventView;

    open spec fn view(&self) -> EventView {
        match *self {
            Event::Turn => EventView::Turn,
            Event::ConfigRead { loaded } => EventView::ConfigRead {
                loaded: match loaded {
                    Some(c) => Some(c@),
                    None => None,
                },
            },
            Event::AuthDone { outcome } => EventView::AuthDone { outcome: outcome@ },
            Event::NetDone { status } => EventView::NetDone { status: status@ },
            Event::Published => EventView::Published,
            Event::Waited => EventView::Waited,
        }
    }
}

// ---------------------------------------------------------------------------
// What the guardian does
// ---------------------------------------------------------------------------

/// When an event came: in seconds since 1970, and in nanoseconds of a clock that never runs
/// backwards.
pub ghost struct Moment {
    pub unix: u64,
    pub clock: int,
}

/// Whether an event is what the guardian waits for.
pub open spec fn expected(m: Model, e: EventView) -> bool {
    match m.phase {
        PhaseView::Top => e is Turn,
        PhaseView::Reloading => e is ConfigRead,
        PhaseView::Kicked => e is AuthDone,
        PhaseView::Checking => e is NetDone,
        PhaseView::Attempt { attempt, status } => e is AuthDone,
        PhaseView::Between { attempt, status } => e is Waited,
        PhaseView::Noting => e is Published,
        PhaseView::Concluding { span } => e is Published,
        PhaseView::Ended => false,
    }
}

/// A turn begins. To stop goes before everything else, and to read the configuration again
/// before a login.
pub open spec fn turn(m: Model, at: Moment) -> (Model, ActionView) {
    if m.shutdown {
        (
            Model { state: GuardianState::Stopped, phase: PhaseView::Ended, ..m },
            ActionView::Exit,
        )
    } else if m.reload {
        (Model { reload: false, phase: PhaseView::Reloading, ..m }, ActionView::ReadConfig)
    } else {
        serve(m, at)
    }
}

/// The configuration was read. It takes effect at once, and a check is due at once; where it
/// could not be read the old one stays.
pub open spec fn reloaded(m: Model, loaded: Option<config::Settings>, at: Moment) -> (
    Model,
    ActionView,
) {
    match loaded {
        Some(c) => serve(Model { cfg: c, running: c.enabled, next_check: at.clock, ..m }, at),
        None => serve(Model { next_check: at.clock, ..m }, at),
    }
}

/// A login that was asked for comes first, whatever the clock says.
pub open spec fn serve(m: Model, at: Moment) -> (Model, ActionView) {
    if m.manual_kick {
        (
            Model {
                manual_kick: false,
                state: GuardianState::Authenticating,
                phase: PhaseView::Kicked,
                ..m
            },
            ActionView::Authenticate { ac: None },
        )
    } else {
        look_at_clock(m, at)
    }
}

/// A check where one is due, and else a pause.
pub open spec fn look_at_clock(m: Model, at: Moment) -> (Model, ActionView) {
    if at.clock >= m.next_check {
        (
            Model { phase: PhaseView::Checking, ..m },
            ActionView::CheckNet { url: m.cfg.check_url },
        )
    } else {
        (Model { phase: PhaseView::Top, ..m }, ActionView::Pause)
    }
}

/// The login that was asked for is over. The next check is a regular one.
pub open spec fn kicked(m: Model, outcome: auth::AuthView, at: Moment) -> (Model, ActionView) {
    let failures = if auth::online(outcome) {
        0
    } else {
        m.failures + 1
    };
    (
        Model {
            state: GuardianState::Monitoring,
            failures,
            next_check: at.clock + m.cfg.check_interval,
            snapshot: SnapshotView {
                last_auth: Some(outcome),
                last_auth_ts: Some(at.unix),
                consecutive_failures: failures,
                next_check_secs: time::whole_seconds(m.cfg.check_interval),
                ..m.snapshot
            },
            phase: PhaseView::Noting,
            ..m
        },
        ActionView::Publish,
    )
}

/// The check is over. A guardian that is switched off only takes note. One that is switched on
/// waits a regular interval where the network is there, and a moment where names are not
/// resolved yet; a portal in the way and a network that is lost bring on a burst of logins at
/// once.
pub open spec fn checked(m: Model, status: netcheck::NetView, at: Moment) -> (Model, ActionView) {
    if !m.running {
        (
            Model {
                state: GuardianState::Stopped,
                snapshot: SnapshotView {
                    net: Some(status),
                    last_net_ts: Some(at.unix),
                    next_check_secs: time::whole_seconds(m.cfg.check_interval),
                    ..m.snapshot
                },
                phase: PhaseView::Concluding { span: m.cfg.check_interval },
                ..m
            },
            ActionView::Publish,
        )
    } else {
        match status {
            netcheck::NetView::Connected => concluded(m, status, 0, m.cfg.check_interval, at),
            netcheck::NetView::DnsPending => concluded(
                m,
                status,
                m.failures,
                time::seconds(5),
                at,
            ),
            netcheck::NetView::CaptivePortal(redirect) => attempted(m, status, 1, at),
            netcheck::NetView::Disconnected(reason) => attempted(m, status, 1, at),
        }
    }
}

/// A check and what it brought on are over.
pub open spec fn concluded(
    m: Model,
    status: netcheck::NetView,
    failures: int,
    span: int,
    at: Moment,
) -> (Model, ActionView) {
    (
        Model {
            failures,
            snapshot: SnapshotView {
                net: Some(status),
                last_net_ts: Some(at.unix),
                consecutive_failures: failures,
                next_check_secs: time::whole_seconds(span),
                ..m.snapshot
            },
            phase: PhaseView::Concluding { span },
            ..m
        },
        ActionView::Publish,
    )
}

/// What a redirect tells of the access controller and the session; without a portal there is
/// none.
pub open spec fn redirect_params(status: netcheck::NetView) -> Option<
    (Seq<char>, Seq<char>, Seq<char>),
> {
    match status {
        netcheck::NetView::CaptivePortal(redirect) => Some(
            (
                netcheck::param(redirect, "wlanacip"@),
                netcheck::param(redirect, "wlanacname"@),
                netcheck::param(redirect, "wlanuserip"@),
            ),
        ),
        _ => None,
    }
}

/// The attempt of that number of a burst: it is made unless there are no attempts left, which
/// makes one more failed round, or the guardian is to stop, which counts as no failure.
pub open spec fn attempted(m: Model, status: netcheck::NetView, attempt: int, at: Moment) -> (
    Model,
    ActionView,
) {
    if attempt > m.cfg.max_retries {
        concluded(m, status, m.failures + 1, backoff(m.cfg, m.failures + 1), at)
    } else if !m.running || m.shutdown {
        concluded(m, status, 0, backoff(m.cfg, 0), at)
    } else {
        (
            Model {
                state: GuardianState::Authenticating,
                phase: PhaseView::Attempt { attempt, status },
                ..m
            },
            ActionView::Authenticate { ac: redirect_params(status) },
        )
    }
}

/// An attempt of a burst is over: the first that gets online ends the burst, and the last one
/// too; between two attempts the guardian waits for the retry interval.
pub open spec fn attempt_done(
    m: Model,
    status: netcheck::NetView,
    attempt: int,
    outcome: auth::AuthView,
    at: Moment,
) -> (Model, ActionView) {
    let back = Model { state: GuardianState::Monitoring, ..m };
    if auth::online(outcome) {
        concluded(back, status, 0, backoff(m.cfg, 0), at)
    } else if attempt < m.cfg.max_retries {
        (
            Model { phase: PhaseView::Between { attempt, status }, ..back },
            ActionView::Wait { span: m.cfg.retry_interval },
        )
    } else {
        attempted(back, status, attempt + 1, at)
    }
}

/// What the guardian does on an event that it waits for.
pub open spec fn transition(m: Model, e: EventView, at: Moment) -> (Model, ActionView) {
    match (m.phase, e) {
        (PhaseView::Top, EventView::Turn) => turn(m, at),
        (PhaseView::Reloading, EventView::ConfigRead { loaded }) => reloaded(m, loaded, at),
        (PhaseView::Kicked, EventView::AuthDone { outcome }) => kicked(m, outcome, at),
        (PhaseView::Checking, EventView::NetDone { status }) => checked(m, status, at),
        (
            PhaseView::Attempt { attempt, status },
            EventView::AuthDone { outcome },
        ) => attempt_done(m, status, attempt, outcome, at),
        (PhaseView::Between { attempt, status }, EventView::Waited) => attempted(
            m,
            status,
            attempt + 1,
            at,
        ),
        (PhaseView::Noting, EventView::Published) => look_at_clock(m, at),
        (PhaseView::Concluding { span }, EventView::Published) => (
            Model { next_check: at.clock + span, phase: PhaseView::Top, ..m },
            ActionView::Pause,
        ),
        _ => (m, ActionView::Exit),
    }
}

impl Model {
    /// What holds of the guardian at all times: the counts fit, what is published of the
    /// failures is right, it is authenticating exactly while a login is under way, the number
    /// of an attempt lies within the burst, and only a portal or a lost network, found by a
    /// guardian that is switched on, brings a burst on.
    pub open spec fn wf(self) -> bool {
        &&& 0 <= self.failures <= u32::MAX
        &&& 0 <= self.cfg.max_retries <= u32::MAX
        &&& 0 <= self.cfg.check_interval
        &&& 0 <= self.cfg.retry_interval
        &&& self.snapshot.consecutive_failures == self.failures
        &&& self.state is Authenticating <==> self.phase is Kicked || self.phase is Attempt
        &&& match self.phase {
            PhaseView::Attempt { attempt, status } => {
                &&& 1 <= attempt <= self.cfg.max_retries
                &&& status is CaptivePortal || status is Disconnected
                &&& self.running
            },
            PhaseView::Between { attempt, status } => {
                &&& 1 <= attempt < self.cfg.max_retries
                &&& status is CaptivePortal || status is Disconnected
                &&& self.running
            },
            PhaseView::Ended => self.state is Stopped,
            _ => true,
        }
    }
}

/// Whether an event makes the guardian count one more failure: a login that was asked for
/// fails, or a burst does, or there is no attempt to make in one.
pub open spec fn counts(m: Model, e: EventView) -> bool {
    match e {
        EventView::AuthDone { outcome } => !auth::online(outcome) && (m.phase is Kicked || (
        m.phase matches PhaseView::Attempt { attempt, status } && attempt >= m.cfg.max_retries)),
        EventView::NetDone { status } => m.running && m.cfg.max_retries == 0 && (
        status is CaptivePortal || status is Disconnected),
        _ => false,
    }
}

/// The guardian as it starts.
pub open spec fn started(c: config::Settings) -> Model {
    Model {
        running: c.enabled,
        manual_kick: false,
        reload: false,
        shutdown: false,
        state: GuardianState::Monitoring,
        cfg: c,
        snapshot: no_snapshot(),
        failures: 0,
        next_check: 0,
        phase: PhaseView::Top,
    }
}

/// Whether something is asked of the guardian that it has not acted on yet.
pub open spec fn called(m: Model) -> bool {
    m.shutdown || m.reload || m.manual_kick
}

/// How long the guardian sleeps on, `slept` into a sleep of `total`, all in nanoseconds: a
/// slice, or what is left of the sleep; nothing where the sleep is over or something is asked
/// of the guardian.
pub open spec fn napping(m: Model, slept: int, total: int) -> Option<int> {
    if slept >= total || called(m) {
        None
    } else if total - slept < SLICE_NANOS {
        Some(total - slept)
    } else {
        Some(SLICE_NANOS as int)
    }
}

/// The moment that both clocks tell.
pub open spec fn moment(unix: u64, clock: Duration) -> Moment {
    Moment { unix, clock: time::nanos(clock) as int }
}

/// The sum of two spans in nanoseconds.
fn later(clock: Duration, span: Duration) -> (r: u128)
    ensures
        r == time::nanos(clock) + time::nanos(span),
{
    let a: u64 = clock.as_secs();
    let b: u64 = span.as_secs();
    assert(time::nanos(clock) < (a + 1) * time::NANOS_PER_SEC) by (nonlinear_arith)
        requires
            a == time::nanos(clock) as int / (time::NANOS_PER_SEC as int),
    ;
    clock.as_nanos() + span.as_nanos()
}

impl Guardian {
    /// A guardian with that configuration. It watches the network from the first turn on; it
    /// logs in of its own accord where the configuration switches it on.
    pub fn start(cfg: Config) -> (r: Self)
        ensures
            r@ == started(cfg@),
            r@.wf(),
    {
        Guardian {
            running: cfg.enabled,
            manual_kick: false,
            reload: false,
            shutdown: false,
            state: GuardianState::Monitoring,
            cfg,
            snapshot: Snapshot {
                net: None,
                last_auth: None,
                last_auth_ts: None,
                last_net_ts: None,
                consecutive_failures: 0,
                next_check_secs: 0,
            },
            failures: 0,
            next_check: 0,
            phase: Phase::Top,
        }
    }

    /// Tells the guardian to log in now.
    pub fn kick(&mut self)
        ensures
            final(self)@ == (Model { manual_kick: true, ..old(self)@ }),
    {
        self.manual_kick = true;
    }

    /// Tells the guardian to read its configuration again; it does so at the next turn.
    pub fn request_reload(&mut self)
        ensures
            final(self)@ == (Model { reload: true, ..old(self)@ }),
    {
        self.reload = true;
    }

    /// Tells the guardian to stop.
    pub fn stop(&mut self)
        ensures
            final(self)@ == (Model { shutdown: true, ..old(self)@ }),
    {
        self.shutdown = true;
    }

    /// Whether the guardian logs in of its own accord.
    pub fn is_running(&self) -> (r: bool)
        ensures
            r == self@.running,
    {
        self.running
    }

    /// What the guardian is doing.
    pub fn state(&self) -> (r: GuardianState)
        ensures
            r == self@.state,
    {
        self.state
    }

    /// The configuration in effect.
    pub fn config(&self) -> (r: Config)
        ensures
            r@ == self@.cfg,
    {
        self.cfg.clone()
    }

    /// The failures in a row.
    pub fn failures(&self) -> (r: u32)
        ensures
            r == self@.failures,
    {
        self.failures
    }

    /// Whether the guardian is told something that it has not acted on yet.
    pub fn is_called(&self) -> (r: bool)
        ensures
            r == called(self@),
    {
        self.shutdown || self.reload || self.manual_kick
    }

    /// How long to sleep on, `slept` into a pause or a wait of `total`; nothing where that is
    /// over, or something is asked of the guardian.
    pub fn nap(&self, slept: Duration, total: Duration) -> (r: Option<Duration>)
        ensures
            match r {
                Some(span) => napping(self@, time::nanos(slept) as int, time::nanos(total) as int)
                    == Some(time::nanos(span) as int),
                None => napping(self@, time::nanos(slept) as int, time::nanos(total) as int)
                    is None,
            },
    {
        let a: u128 = slept.as_nanos();
        let b: u128 = total.as_nanos();
        if a >= b || self.is_called() {
            return None;
        }
        if b - a < SLICE_NANOS as u128 {
            Some(Duration::from_nanos((b - a) as u64))
        } else {
            Some(Duration::from_nanos(SLICE_NANOS))
        }
    }

    /// What the guardian does on an event: the first is a turn, and every further one answers
    /// the action before. `unix` is the time in seconds since 1970, and `clock` the time on a
    /// clock that never runs backwards.
    pub fn step(&mut self, event: Event, unix: u64, clock: Duration) -> (r: Action)
        requires
            old(self)@.wf(),
            expected(old(self)@, event@),
            counts(old(self)@, event@) ==> old(self)@.failures < u32::MAX,
        ensures
            (final(self)@, r@) == transition(old(self)@, event@, moment(unix, clock)),
            final(self)@.wf(),
    {
        let mut phase = Phase::Top;
        core::mem::swap(&mut phase, &mut self.phase);
        match (phase, event) {
            (Phase::Top, Event::Turn) => self.turn(clock),
            (Phase::Reloading, Event::ConfigRead { loaded }) => self.reloaded(loaded, clock),
            (Phase::Kicked, Event::AuthDone { outcome }) => self.kicked(outcome, unix, clock),
            (Phase::Checking, Event::NetDone { status }) => self.checked(status, unix),
            (Phase::Attempt { attempt, status }, Event::AuthDone { outcome }) => {
                self.attempt_done(status, attempt, &outcome, unix)
            },
            (Phase::Between { attempt, status }, Event::Waited) => {
                self.attempted(status, attempt + 1, unix)
            },
            (Phase::Noting, Event::Published) => self.look_at_clock(clock),
            (Phase::Concluding { span }, Event::Published) => {
                self.next_check = later(clock, span);
                Action::Pause
            },
            _ => {
                Action::Exit
            },
        }
    }

    fn turn(&mut self, clock: Duration) -> (r: Action)
        requires
            old(self)@.phase is Top,
        ensures
            (final(self)@, r@) == turn(old(self)@, moment(0, clock)),
    {
        if self.shutdown {
            self.state = GuardianState::Stopped;
            self.phase = Phase::Ended;
            Action::Exit
        } else if self.reload {
            self.reload = false;
            self.phase = Phase::Reloading;
            Action::ReadConfig
        } else {
            self.serve(clock)
        }
    }

    fn reloaded(&mut self, loaded: Option<Config>, clock: Duration) -> (r: Action)
        requires
            old(self)@.phase is Top,
        ensures
            (final(self)@, r@) == reloaded(
                old(self)@,
                (Event::ConfigRead { loaded })@->loaded,
                moment(0, clock),
            ),
    {
        if let Some(cfg) = loaded {
            self.running = cfg.enabled;
            self.cfg = cfg;
        }
        self.next_check = clock.as_nanos();
        self.serve(clock)
    }

    fn serve(&mut self, clock: Duration) -> (r: Action)
        requires
            old(self)@.phase is Top,
        ensures
            (final(self)@, r@) == serve(old(self)@, moment(0, clock)),
    {
        if self.manual_kick {
            self.manual_kick = false;
            self.state = GuardianState::Authenticating;
            self.phase = Phase::Kicked;
            Action::Authenticate { ac: None }
        } else {
            self.look_at_clock(clock)
        }
    }

    fn look_at_clock(&mut self, clock: Duration) -> (r: Action)
        requires
            old(self)@.phase is Top,
        ensures
            (final(self)@, r@) == look_at_clock(old(self)@, moment(0, clock)),
    {
        if clock.as_nanos() >= self.next_check {
            self.phase = Phase::Checking;
            Action::CheckNet { url: self.cfg.check_url.clone() }
        } else {
            Action::Pause
        }
    }

    fn kicked(&mut self, outcome: AuthOutcome, unix: u64, clock: Duration) -> (r: Action)
        requires
            !auth::online(outcome@) ==> old(self)@.failures < u32::MAX,
        ensures
            (final(self)@, r@) == kicked(old(self)@, outcome@, moment(unix, clock)),
    {
        self.state = GuardianState::Monitoring;
        self.failures = if outcome.is_ok() {
            0
        } else {
            self.failures + 1
        };
        self.snapshot.last_auth = Some(outcome);
        self.snapshot.last_auth_ts = Some(unix);
        self.snapshot.consecutive_failures = self.failures;
        self.snapshot.next_check_secs = self.cfg.check_interval.as_secs();
        self.next_check = later(clock, self.cfg.check_interval);
        self.phase = Phase::Noting;
        Action::Publish
    }

    fn checked(&mut self, status: NetStatus, unix: u64) -> (r: Action)
        requires
            counts(old(self)@, (EventView::NetDone { status: status@ })) ==> old(self)@.failures
                < u32::MAX,
        ensures
            (final(self)@, r@) == checked(old(self)@, status@, (Moment { unix, clock: 0 })),
    {
        let interval = self.cfg.check_interval;
        if !self.running {
            self.snapshot.net = Some(status);
            self.snapshot.last_net_ts = Some(unix);
            self.snapshot.next_check_secs = interval.as_secs();
            self.state = GuardianState::Stopped;
            self.phase = Phase::Concluding { span: interval };
            return Action::Publish;
        }
        match status {
            NetStatus::Connected => self.concluded(status, 0, interval, unix),
            NetStatus::DnsPending => {
                let failures: u32 = self.failures;
                self.concluded(status, failures, Duration::from_secs(5), unix)
            },
            NetStatus::CaptivePortal { redirect } => {
                self.attempted(NetStatus::CaptivePortal { redirect }, 1, unix)
            },
            NetStatus::Disconnected { reason } => {
                self.attempted(NetStatus::Disconnected { reason }, 1, unix)
            },
        }
    }

    fn concluded(&mut self, status: NetStatus, failures: u32, span: Duration, unix: u64) -> (r:
        Action)
        ensures
            (final(self)@, r@) == concluded(
                old(self)@,
                status@,
                failures as int,
                time::nanos(span) as int,
                (Moment { unix, clock: 0 }),
            ),
    {
        self.failures = failures;
        self.snapshot.net = Some(status);
        self.snapshot.last_net_ts = Some(unix);
        self.snapshot.consecutive_failures = failures;
        self.snapshot.next_check_secs = span.as_secs();
        self.phase = Phase::Concluding { span };
        Action::Publish
    }

    fn attempted(&mut self, status: NetStatus, attempt: u32, unix: u64) -> (r: Action)
        requires
            attempt > old(self)@.cfg.max_retries ==> old(self)@.failures < u32::MAX,
        ensures
            (final(self)@, r@) == attempted(
                old(self)@,
                status@,
                attempt as int,
                (Moment { unix, clock: 0 }),
            ),
    {
        if attempt > self.cfg.max_retries {
            let failures: u32 = self.failures + 1;
            let span = backoff_delay(&self.cfg, failures);
            self.concluded(status, failures, span, unix)
        } else if !self.running || self.shutdown {
            let span = backoff_delay(&self.cfg, 0);
            self.concluded(status, 0, span, unix)
        } else {
            let ac = match &status {
                NetStatus::CaptivePortal { redirect } => Some(
                    netcheck::extract_ac_params(redirect.as_str()),
                ),
                _ => None,
            };
            self.state = GuardianState::Authenticating;
            self.phase = Phase::Attempt { attempt, status };
            Action::Authenticate { ac }
        }
    }

    fn attempt_done(
        &mut self,
        status: NetStatus,
        attempt: u32,
        outcome: &AuthOutcome,
        unix: u64,
    ) -> (r: Action)
        requires
            attempt <= old(self)@.cfg.max_retries,
            attempt == old(self)@.cfg.max_retries && !auth::online(outcome@)
                ==> old(self)@.failures < u32::MAX,
        ensures
            (final(self)@, r@) == attempt_done(
                old(self)@,
                status@,
                attempt as int,
                outcome@,
                (Moment { unix, clock: 0 }),
            ),
    {
        self.state = GuardianState::Monitoring;
        if outcome.is_ok() {
            let span = backoff_delay(&self.cfg, 0);
            self.concluded(status, 0, span, unix)
        } else if attempt < self.cfg.max_retries {
            self.phase = Phase::Between { attempt, status };
            Action::Wait { span: self.cfg.retry_interval }
        } else {
            let failures: u32 = self.failures + 1;
            let span = backoff_delay(&self.cfg, failures);
            self.concluded(status, failures, span, unix)
        }
    }
}

// ---------------------------------------------------------------------------
// What can be relied on
// ---------------------------------------------------------------------------

/// The event that answers an action.
pub open spec fn answers(a: ActionView, e: EventView) -> bool {
    match a {
        ActionView::ReadConfig => e is ConfigRead,
        ActionView::Authenticate { ac } => e is AuthDone,
        ActionView::CheckNet { url } => e is NetDone,
        ActionView::Publish => e is Published,
        ActionView::Pause => e is Turn,
        ActionView::Wait { span } => e is Waited,
        ActionView::Exit => false,
    }
}

/// The events that the guardian waits for are those that answer its last action.
pub proof fn law_answer_is_expected(m: Model, e: EventView, at: Moment, next: EventView)
    requires
        m.wf(),
        expected(m, e),
    ensures
        expected(transition(m, e, at).0, next) <==> answers(transition(m, e, at).1, next),
{
}

/// A guardian that is switched off begins a login only where it is told to.
pub proof fn law_switched_off_logs_in_when_told(m: Model, e: EventView, at: Moment)
    requires
        m.wf(),
        expected(m, e),
        !m.running,
        transition(m, e, at).1 is Authenticate,
    ensures
        m.manual_kick,
        !transition(m, e, at).0.manual_kick,
{
}

/// A guardian that is told to log in does so in the next turn, whatever the clock says and
/// however often it failed before; a configuration that it is told to read again it reads
/// first.
pub proof fn law_told_login_comes_first(
    m: Model,
    at: Moment,
    loaded: Option<config::Settings>,
    then: Moment,
)
    requires
        m.phase is Top,
        m.manual_kick,
        !m.shutdown,
    ensures
        !m.reload ==> transition(m, EventView::Turn, at).1 == (ActionView::Authenticate {
            ac: None,
        }),
        m.reload ==> {
            let read = transition(m, EventView::Turn, at);
            &&& read.1 is ReadConfig
            &&& transition(read.0, EventView::ConfigRead { loaded }, then).1
                == (ActionView::Authenticate { ac: None })
        },
{
}

/// A configuration that was read takes effect at once: the guardian is switched on or off as
/// it says, and the address that it names is checked without waiting. One that could not be
/// read changes nothing, and the check is made all the same.
pub proof fn law_reload_takes_effect(m: Model, loaded: Option<config::Settings>, at: Moment)
    requires
        m.phase is Reloading,
    ensures
        ({
            let (n, a) = transition(m, EventView::ConfigRead { loaded }, at);
            let cfg = match loaded {
                Some(c) => c,
                None => m.cfg,
            };
            &&& n.cfg == cfg
            &&& n.running == (if loaded is Some {
                cfg.enabled
            } else {
                m.running
            })
            &&& n.failures == m.failures
            &&& n.snapshot == m.snapshot
            &&& !m.manual_kick ==> n.state == m.state
            &&& !m.manual_kick ==> a == (ActionView::CheckNet { url: cfg.check_url })
        }),
{
}

/// A guardian that starts checks the network in its first turn.
pub proof fn law_start_checks_at_once(c: config::Settings, at: Moment)
    requires
        at.clock >= 0,
    ensures
        transition(started(c), EventView::Turn, at).1 == (ActionView::CheckNet {
            url: c.check_url,
        }),
{
}

/// A portal in the way is answered with a login at once, whatever happened before; what its
/// redirect tells goes into the login. So is a network that is lost.
pub proof fn law_loss_is_answered(m: Model, redirect: Seq<char>, reason: Seq<char>, at: Moment)
    requires
        m.phase is Checking,
        m.running,
        !m.shutdown,
        m.cfg.max_retries >= 1,
    ensures
        transition(
            m,
            EventView::NetDone { status: netcheck::NetView::CaptivePortal(redirect) },
            at,
        ).1 == (ActionView::Authenticate {
            ac: Some(
                (
                    netcheck::param(redirect, "wlanacip"@),
                    netcheck::param(redirect, "wlanacname"@),
                    netcheck::param(redirect, "wlanuserip"@),
                ),
            ),
        }),
        transition(
            m,
            EventView::NetDone { status: netcheck::NetView::Disconnected(reason) },
            at,
        ).1 == (ActionView::Authenticate { ac: None }),
{
}

/// Every login that a burst asks for, whichever its number, carries exactly what the redirect
/// told that brought the burst on: the parameters `wlanacip`, `wlanacname` and `wlanuserip` of
/// it; and none only where the check found no portal. All attempts of a burst are about what
/// the check found.
pub proof fn law_burst_carries_the_redirect(m: Model, e: EventView, at: Moment)
    requires
        m.wf(),
        expected(m, e),
    ensures
        transition(m, e, at).0.phase matches PhaseView::Attempt { attempt, status } ==> {
            &&& match status {
                netcheck::NetView::CaptivePortal(redirect) => transition(m, e, at).1 == (
                ActionView::Authenticate {
                    ac: Some(
                        (
                            netcheck::param(redirect, "wlanacip"@),
                            netcheck::param(redirect, "wlanacname"@),
                            netcheck::param(redirect, "wlanuserip"@),
                        ),
                    ),
                }),
                _ => transition(m, e, at).1 == (ActionView::Authenticate { ac: None }),
            }
            &&& match m.phase {
                PhaseView::Checking => e == (EventView::NetDone { status }),
                PhaseView::Between { attempt: before, status: found } => status == found,
                _ => false,
            }
        },
        transition(m, e, at).0.phase matches PhaseView::Between { attempt, status } ==> {
            &&& transition(m, e, at).1 == (ActionView::Wait { span: m.cfg.retry_interval })
            &&& m.phase == (PhaseView::Attempt { attempt, status })
        },
        transition(m, e, at).1 is Wait ==> transition(m, e, at).0.phase is Between,
        transition(m, e, at).1 is Authenticate ==> transition(m, e, at).0.phase is Attempt
            || transition(m, e, at).0.phase is Kicked,
        transition(m, e, at).0.phase is Kicked ==> transition(m, e, at).1 == (
        ActionView::Authenticate { ac: None }),
{
}

/// A burst goes on after a failed attempt as long as attempts are left, and ends otherwise.
pub proof fn law_burst_goes_on(
    m: Model,
    attempt: int,
    status: netcheck::NetView,
    outcome: auth::AuthView,
    at: Moment,
)
    requires
        m.wf(),
        m.phase == (PhaseView::Attempt { attempt, status }) || m.phase == (PhaseView::Between {
            attempt,
            status,
        }),
    ensures
        m.phase is Attempt && !auth::online(outcome) ==> {
            let n = transition(m, EventView::AuthDone { outcome }, at).0;
            if attempt < m.cfg.max_retries {
                n.phase == (PhaseView::Between { attempt, status }) && n.snapshot == m.snapshot
                    && n.failures == m.failures
            } else {
                n.phase is Concluding && n.state is Monitoring && n.snapshot == (SnapshotView {
                    net: Some(status),
                    last_net_ts: Some(at.unix),
                    last_auth: m.snapshot.last_auth,
                    last_auth_ts: m.snapshot.last_auth_ts,
                    consecutive_failures: m.failures + 1,
                    next_check_secs: time::whole_seconds(backoff(m.cfg, m.failures + 1)),
                })
            }
        },
        m.phase is Between && !m.shutdown ==> {
            let n = transition(m, EventView::Waited, at).0;
            n.phase == (PhaseView::Attempt { attempt: attempt + 1, status }) && n.snapshot
                == m.snapshot
        },
{
}

/// A burst that gets online, and one that is broken off because the guardian is to stop, leave
/// no failures; the next check is a regular one. What the check found is published then, with
/// the time, and the last login that was asked for stays as it was.
pub proof fn law_burst_ends_well(
    m: Model,
    attempt: int,
    status: netcheck::NetView,
    outcome: auth::AuthView,
    at: Moment,
)
    requires
        m.wf(),
        m.phase == (PhaseView::Attempt { attempt, status }) && auth::online(outcome) || m.phase == (
        PhaseView::Between { attempt, status }) && m.shutdown,
    ensures
        ({
            let (n, a) = if m.phase is Attempt {
                transition(m, EventView::AuthDone { outcome }, at)
            } else {
                transition(m, EventView::Waited, at)
            };
            &&& a is Publish
            &&& n.failures == 0
            &&& n.phase == (PhaseView::Concluding { span: m.cfg.check_interval })
            &&& n.state is Monitoring || n.state == m.state
            &&& n.snapshot == (SnapshotView {
                net: Some(status),
                last_net_ts: Some(at.unix),
                consecutive_failures: 0,
                next_check_secs: time::whole_seconds(m.cfg.check_interval),
                last_auth: m.snapshot.last_auth,
                last_auth_ts: m.snapshot.last_auth_ts,
            })
        }),
{
}

/// A login that was asked for is published with its outcome and its time, and the next check
/// is a regular one from then on; what the last check found stays.
pub proof fn law_told_login_is_noted(m: Model, outcome: auth::AuthView, at: Moment)
    requires
        m.wf(),
        m.phase is Kicked,
    ensures
        ({
            let (n, a) = transition(m, EventView::AuthDone { outcome }, at);
            let failures = if auth::online(outcome) {
                0
            } else {
                m.failures + 1
            };
            &&& a is Publish
            &&& n.state is Monitoring
            &&& n.failures == failures
            &&& n.next_check == at.clock + m.cfg.check_interval
            &&& n.snapshot == (SnapshotView {
                net: m.snapshot.net,
                last_net_ts: m.snapshot.last_net_ts,
                last_auth: Some(outcome),
                last_auth_ts: Some(at.unix),
                consecutive_failures: failures,
                next_check_secs: time::whole_seconds(m.cfg.check_interval),
            })
        }),
{
}

/// What a check found is published with its time. A network that is there is checked again
/// after the regular interval, names that are not resolved yet after five seconds; both bring
/// on no login. A guardian that is switched off publishes whatever it found, is stopped, and
/// checks again after the regular interval.
pub proof fn law_check_is_noted(m: Model, status: netcheck::NetView, at: Moment)
    requires
        m.wf(),
        m.phase is Checking,
        !m.running || status is Connected || status is DnsPending,
    ensures
        ({
            let (n, a) = transition(m, EventView::NetDone { status }, at);
            let span = if m.running && status is DnsPending {
                5_000_000_000
            } else {
                m.cfg.check_interval
            };
            let failures = if m.running && status is Connected {
                0
            } else {
                m.failures
            };
            &&& a is Publish
            &&& n.phase == (PhaseView::Concluding { span })
            &&& n.failures == failures
            &&& n.state == (if m.running {
                m.state
            } else {
                GuardianState::Stopped
            })
            &&& n.snapshot == (SnapshotView {
                net: Some(status),
                last_net_ts: Some(at.unix),
                last_auth: m.snapshot.last_auth,
                last_auth_ts: m.snapshot.last_auth_ts,
                consecutive_failures: failures,
                next_check_secs: span / 1_000_000_000,
            })
        }),
{
}

/// What is published of the wait for the next check is how long it is: the next check is due so
/// many nanoseconds after the state was published, and not before.
pub proof fn law_next_check(m: Model, span: int, at: Moment, later: Moment)
    requires
        m.phase == (PhaseView::Concluding { span }),
    ensures
        ({
            let (n, a) = transition(m, EventView::Published, at);
            &&& a is Pause
            &&& n == (Model { next_check: at.clock + span, phase: PhaseView::Top, ..m })
            &&& !called(n) ==> (transition(n, EventView::Turn, later).1 is CheckNet <==> later.clock
                >= at.clock + span)
        }),
{
}

/// In a turn in which nothing is asked of the guardian, and after a login that was asked for,
/// the configured address is checked if and only if the time has come; else the guardian
/// pauses. Nothing else changes.
pub proof fn law_quiet_turn(m: Model, at: Moment)
    requires
        m.phase is Top && !called(m) || m.phase is Noting,
    ensures
        ({
            let (n, a) = transition(
                m,
                if m.phase is Top {
                    EventView::Turn
                } else {
                    EventView::Published
                },
                at,
            );
            if at.clock >= m.next_check {
                a == (ActionView::CheckNet { url: m.cfg.check_url }) && n == (Model {
                    phase: PhaseView::Checking,
                    ..m
                })
            } else {
                a is Pause && n == (Model { phase: PhaseView::Top, ..m })
            }
        }),
{
}

/// What the guardian is told stays until it acts on it: only a login takes back that it is told
/// to log in, only reading the configuration that it is told to read it, and nothing that it
/// is told to stop. Only a configuration that was read changes the settings and whether it is
/// switched on.
pub proof fn law_told_until_done(m: Model, e: EventView, at: Moment)
    requires
        m.wf(),
        expected(m, e),
    ensures
        ({
            let (n, a) = transition(m, e, at);
            &&& n.shutdown == m.shutdown
            &&& n.reload == (m.reload && !(a is ReadConfig))
            &&& n.manual_kick == (m.manual_kick && !(n.phase is Kicked))
            &&& a is ReadConfig <==> m.phase is Top && m.reload && !m.shutdown
            &&& n.phase is Kicked ==> m.manual_kick
            &&& !(e is ConfigRead) ==> n.cfg == m.cfg && n.running == m.running
        }),
{
}

/// A guardian that starts is switched on as its configuration says, watches, and has nothing
/// to tell yet.
pub proof fn law_started(c: config::Settings)
    ensures
        started(c).cfg == c,
        started(c).running == c.enabled,
        started(c).state is Monitoring,
        started(c).phase is Top,
        !called(started(c)),
        started(c).failures == 0,
        started(c).snapshot.net is None && started(c).snapshot.last_auth is None,
        started(c).snapshot.last_auth_ts is None && started(c).snapshot.last_net_ts is None,
{
}

/// A sleep is never longer than what is left of it, nor than a tenth of a second at a time; and
/// it ends exactly where nothing is left of it or something is asked of the guardian.
pub proof fn law_nap(m: Model, slept: int, total: int)
    ensures
        napping(m, slept, total) is None <==> slept >= total || m.shutdown || m.reload
            || m.manual_kick,
        napping(m, slept, total) matches Some(span) ==> 0 < span <= 100_000_000 && slept + span
            <= total && (span == 100_000_000 || slept + span == total),
{
}

/// Without failures the next check comes after the regular interval, and else after the
/// backoff, in whole seconds of the retry interval.
pub proof fn law_backoff_span(c: config::Settings, failures: int)
    requires
        failures >= 0,
    ensures
        failures == 0 ==> backoff(c, failures) == c.check_interval,
        failures > 0 ==> backoff(c, failures) == 1_000_000_000 * backoff_secs(
            c.retry_interval / 1_000_000_000,
            failures,
        ),
{
}

/// The most steps that a guardian which is told to stop still makes.
pub open spec fn steps_to_exit(p: PhaseView) -> nat {
    match p {
        PhaseView::Ended => 0,
        PhaseView::Top => 1,
        PhaseView::Concluding { span } => 2,
        PhaseView::Checking => 3,
        PhaseView::Between { attempt, status } => 3,
        PhaseView::Attempt { attempt, status } => 4,
        PhaseView::Noting => 4,
        PhaseView::Kicked => 5,
        PhaseView::Reloading => 6,
    }
}

/// A guardian that is told to stop comes closer to its end with every step, and its state is
/// then the stopped one; at the next turn it ends at once, and no attempt of a burst is made
/// any more.
pub proof fn law_told_to_stop(m: Model, e: EventView, at: Moment)
    requires
        m.wf(),
        expected(m, e),
        m.shutdown,
    ensures
        ({
            let (n, a) = transition(m, e, at);
            &&& n.shutdown
            &&& steps_to_exit(n.phase) < steps_to_exit(m.phase)
            &&& a is Exit <==> n.phase is Ended
            &&& n.phase is Ended ==> n.state is Stopped
            &&& m.phase is Top ==> a is Exit
            &&& !(n.phase is Attempt)
        }),
{
}

/// The attempts of a burst are numbered from one and never outnumber what the configuration
/// allows: an attempt follows on a check, or on the attempt before it that failed.
pub proof fn law_burst_is_bounded(m: Model, e: EventView, at: Moment)
    requires
        m.wf(),
        expected(m, e),
    ensures
        transition(m, e, at).0.phase matches PhaseView::Attempt { attempt, status } ==> {
            &&& 1 <= attempt <= m.cfg.max_retries
            &&& status is CaptivePortal || status is Disconnected
            &&& match m.phase {
                PhaseView::Checking => attempt == 1,
                PhaseView::Between { attempt: before, status: found } => attempt == before + 1
                    && status == found,
                _ => false,
            }
        },
        transition(m, e, at).0.phase matches PhaseView::Between { attempt, status } ==> {
            &&& m.phase == (PhaseView::Attempt { attempt, status })
            &&& e matches EventView::AuthDone { outcome } && !auth::online(outcome)
        },
{
}

/// The failures in a row change only as follows: getting online and finding the network there
/// set them back to none; a failed login that was asked for adds one, and so does a burst that
/// fails, however many attempts it made; a burst that is broken off leaves none.
pub proof fn law_failures(m: Model, e: EventView, at: Moment)
    requires
        m.wf(),
        expected(m, e),
    ensures
        ({
            let n = transition(m, e, at).0;
            match e {
                EventView::AuthDone { outcome } => if auth::online(outcome) {
                    n.failures == 0
                } else if m.phase is Kicked || n.phase is Concluding {
                    n.failures == m.failures + 1
                } else {
                    n.failures == m.failures
                },
                EventView::NetDone { status } => m.running ==> {
                    &&& status is Connected ==> n.failures == 0
                    &&& status is DnsPending ==> n.failures == m.failures
                    &&& status is CaptivePortal || status is Disconnected ==> n.phase is Attempt
                        && n.failures == m.failures || m.cfg.max_retries == 0 && n.failures
                        == m.failures + 1 || m.shutdown && n.failures == 0
                },
                EventView::Waited => n.failures == m.failures || m.shutdown && n.failures == 0,
                _ => n.failures == m.failures,
            }
        }),
        !m.running && !(m.phase is Kicked) ==> transition(m, e, at).0.failures == m.failures,
{
}

/// An attempt of a burst that failed: when it was over, and when the wait after it was.
pub ghost struct FailedAttempt {
    pub outcome: auth::AuthView,
    pub done: Moment,
    pub waited: Moment,
}

/// The guardian after a row of attempts of a burst, with a wait after each but the last.
pub open spec fn after_attempts(m: Model, tries: Seq<FailedAttempt>) -> Model
    decreases tries.len(),
{
    if tries.len() == 0 {
        m
    } else {
        let last = tries.last();
        let n = transition(
            after_attempts(m, tries.drop_last()),
            EventView::AuthDone { outcome: last.outcome },
            last.done,
        ).0;
        if n.phase is Between {
            transition(n, EventView::Waited, last.waited).0
        } else {
            n
        }
    }
}

/// The guardian after a round in which the check finds `status` and every attempt of the burst
/// fails.
pub open spec fn after_round(
    m: Model,
    status: netcheck::NetView,
    at: Moment,
    tries: Seq<FailedAttempt>,
) -> Model {
    after_attempts(transition(m, EventView::NetDone { status }, at).0, tries)
}

/// Whether a round can fail so: the guardian is switched on and not told to stop, it finds a
/// portal or no network, and every attempt that the configuration allows fails.
pub open spec fn round_fails(
    m: Model,
    status: netcheck::NetView,
    tries: Seq<FailedAttempt>,
) -> bool {
    &&& m.wf()
    &&& m.phase is Checking
    &&& m.running
    &&& !m.shutdown
    &&& status is CaptivePortal || status is Disconnected
    &&& tries.len() == m.cfg.max_retries
    &&& forall|i: int| 0 <= i < tries.len() ==> !auth::online((#[trigger] tries[i]).outcome)
}

proof fn lemma_attempts(
    m: Model,
    status: netcheck::NetView,
    at: Moment,
    tries: Seq<FailedAttempt>,
)
    requires
        m.phase is Checking,
        m.running,
        !m.shutdown,
        status is CaptivePortal || status is Disconnected,
        tries.len() < m.cfg.max_retries,
        forall|i: int| 0 <= i < tries.len() ==> !auth::online((#[trigger] tries[i]).outcome),
    ensures
        after_round(m, status, at, tries) == (Model {
            state: GuardianState::Authenticating,
            phase: PhaseView::Attempt { attempt: tries.len() as int + 1, status },
            ..m
        }),
    decreases tries.len(),
{
    if tries.len() > 0 {
        let before = tries.drop_last();
        assert forall|i: int| 0 <= i < before.len() implies !auth::online(
            (#[trigger] before[i]).outcome,
        ) by {
            assert(before[i] == tries[i]);
        }
        lemma_attempts(m, status, at, before);
        assert(!auth::online(tries[tries.len() - 1].outcome));
    }
}

/// A round that fails counts as one more failure, however many attempts it made, and the next
/// check comes the later the more rounds failed: the retry interval, doubled for every
/// failure before, but no more than the longest backoff. It does not matter whether a portal
/// was in the way or the network was lost.
pub proof fn law_next_check_backs_off(
    m: Model,
    status: netcheck::NetView,
    at: Moment,
    tries: Seq<FailedAttempt>,
    then: Moment,
)
    requires
        round_fails(m, status, tries),
    ensures
        ({
            let noted = after_round(m, status, at, tries);
            let n = transition(noted, EventView::Published, then).0;
            let secs = backoff_secs(
                time::whole_seconds(m.cfg.retry_interval),
                m.failures + 1,
            );
            &&& noted.phase is Concluding
            &&& noted.failures == m.failures + 1
            &&& noted.cfg == m.cfg
            &&& noted.snapshot.next_check_secs == secs
            &&& n.next_check == then.clock + time::seconds(secs)
            &&& secs <= MAX_BACKOFF_SECS
        }),
{
    if tries.len() > 0 {
        let before = tries.drop_last();
        assert forall|i: int| 0 <= i < before.len() implies !auth::online(
            (#[trigger] before[i]).outcome,
        ) by {
            assert(before[i] == tries[i]);
        }
        lemma_attempts(m, status, at, before);
        assert(!auth::online(tries[tries.len() - 1].outcome));
    }
}

/// From one failed round to the next the wait doubles, until it is the longest backoff. `m` is
/// the guardian in the first round and `n` in the second.
pub proof fn law_wait_doubles(
    m: Model,
    status: netcheck::NetView,
    at: Moment,
    tries: Seq<FailedAttempt>,
    n: Model,
    status2: netcheck::NetView,
    at2: Moment,
    tries2: Seq<FailedAttempt>,
)
    requires
        round_fails(m, status, tries),
        round_fails(n, status2, tries2),
        n.cfg == m.cfg,
        n.failures == after_round(m, status, at, tries).failures,
    ensures
        ({
            let first = after_round(m, status, at, tries).snapshot.next_check_secs;
            let second = after_round(n, status2, at2, tries2).snapshot.next_check_secs;
            second == (if 2 * first < MAX_BACKOFF_SECS {
                2 * first
            } else {
                MAX_BACKOFF_SECS as int
            })
        }),
{
    law_next_check_backs_off(m, status, at, tries, at);
    law_next_check_backs_off(n, status2, at2, tries2, at2);
    law_backoff(time::whole_seconds(m.cfg.retry_interval), m.failures + 1);
}

/// The backoff starts with the retry interval and doubles with every failure until it reaches
/// the longest backoff, where it stays.
pub proof fn law_backoff(retry: int, failures: int)
    requires
        retry >= 0,
        failures >= 1,
    ensures
        failures == 1 ==> backoff_secs(retry, failures) == (if retry < MAX_BACKOFF_SECS {
            retry
        } else {
            MAX_BACKOFF_SECS as int
        }),
        backoff_secs(retry, failures + 1) == (if 2 * backoff_secs(retry, failures)
            < MAX_BACKOFF_SECS {
            2 * backoff_secs(retry, failures)
        } else {
            MAX_BACKOFF_SECS as int
        }),
        0 <= backoff_secs(retry, failures) <= backoff_secs(retry, failures + 1)
            <= MAX_BACKOFF_SECS,
        retry >= 1 ==> backoff_secs(retry, failures) >= 1,
        retry >= 1 && failures > 10 ==> backoff_secs(retry, failures) == MAX_BACKOFF_SECS,
{
    vstd::arithmetic::power2::lemma2_to64();
    let d = (if failures - 1 < 10 {
        failures - 1
    } else {
        10
    }) as nat;
    let p = vstd::arithmetic::power2::pow2(d) as int;
    vstd::arithmetic::power2::lemma_pow2_pos(d);
    vstd::arithmetic::power2::lemma_pow2_unfold((d + 1) as nat);
    assert(retry * (2 * p) == 2 * (retry * p)) by (nonlinear_arith);
    assert(retry * p >= retry) by (nonlinear_arith)
        requires
            retry >= 0,
            p >= 1,
    ;
    if failures == 1 {
        assert(retry * p == retry) by (nonlinear_arith)
            requires
                p == 1,
        ;
    }
}

// ---------------------------------------------------------------------------
// What is published
// ---------------------------------------------------------------------------

/// An object with one member more.
pub open spec fn with(j: json::Json, key: Seq<char>, item: json::Json) -> json::Json {
    json::Json::Object(json::members(j).insert(key, item))
}

/// What is published of a check.
pub open spec fn net_tree(s: netcheck::NetView) -> json::Json {
    let kind = match s {
        netcheck::NetView::Connected => "connected"@,
        netcheck::NetView::CaptivePortal(redirect) => "captive_portal"@,
        netcheck::NetView::DnsPending => "dns_pending"@,
        netcheck::NetView::Disconnected(reason) => "disconnected"@,
    };
    let j = with(json::Json::Null, "kind"@, json::Json::Str(kind));
    match s {
        netcheck::NetView::CaptivePortal(redirect) => with(
            j,
            "redirect"@,
            json::Json::Str(redirect),
        ),
        netcheck::NetView::Disconnected(reason) => with(j, "reason"@, json::Json::Str(reason)),
        _ => j,
    }
}

/// What is published of a login.
pub open spec fn auth_tree(o: auth::AuthView) -> json::Json {
    let (kind, msg) = match o {
        auth::AuthView::Success => ("success"@, ""@),
        auth::AuthView::AlreadyOnline => ("already_online"@, ""@),
        auth::AuthView::Failed(msg) => ("failed"@, msg),
        auth::AuthView::NetworkError(msg) => ("network_error"@, msg),
    };
    with(
        with(json::Json::Null, "kind"@, json::Json::Str(kind)),
        "msg"@,
        json::Json::Str(msg),
    )
}

/// A number, or null where there is none.
pub open spec fn opt_int(n: Option<u64>) -> json::Json {
    match n {
        Some(n) => json::Json::Int(n as int),
        None => json::Json::Null,
    }
}

/// What is published of the guardian. Of its configuration that is only whether it logs in of
/// its own accord, and what is wrong with the configuration.
pub open spec fn status_tree(m: Model) -> json::Json {
    json::Json::Object(
        Map::empty().insert("version"@, json::Json::Str(http::VERSION@)).insert(
            "state"@,
            json::Json::Str(state_name(m.state)),
        ).insert("enabled"@, json::Json::Bool(m.running)).insert(
            "net"@,
            match m.snapshot.net {
                Some(s) => net_tree(s),
                None => json::Json::Null,
            },
        ).insert(
            "last_auth"@,
            match m.snapshot.last_auth {
                Some(o) => auth_tree(o),
                None => json::Json::Null,
            },
        ).insert("last_auth_ts"@, opt_int(m.snapshot.last_auth_ts)).insert(
            "last_net_ts"@,
            opt_int(m.snapshot.last_net_ts),
        ).insert(
            "consecutive_failures"@,
            json::Json::Int(m.snapshot.consecutive_failures),
        ).insert("next_check_secs"@, json::Json::Int(m.snapshot.next_check_secs)).insert(
            "config_problems"@,
            json::string_array(config::problems(m.cfg)),
        ),
    )
}

/// What is published of a check.
pub fn net_status_json(s: &NetStatus) -> (r: Value)
    ensures
        json::json_tree(r) == net_tree(s@),
{
    let mut v = json::null();
    match s {
        NetStatus::Connected => {
            json::set(&mut v, "kind", json::from_str("connected"));
        },
        NetStatus::CaptivePortal { redirect } => {
            json::set(&mut v, "kind", json::from_str("captive_portal"));
            json::set(&mut v, "redirect", json::from_str(redirect.as_str()));
        },
        NetStatus::DnsPending => {
            json::set(&mut v, "kind", json::from_str("dns_pending"));
        },
        NetStatus::Disconnected { reason } => {
            json::set(&mut v, "kind", json::from_str("disconnected"));
            json::set(&mut v, "reason", json::from_str(reason.as_str()));
        },
    }
    v
}

/// What is published of a login.
pub fn auth_outcome_json(o: &AuthOutcome) -> (r: Value)
    ensures
        json::json_tree(r) == auth_tree(o@),
{
    let (kind, msg) = match o {
        AuthOutcome::Success => ("success", ""),
        AuthOutcome::AlreadyOnline => ("already_online", ""),
        AuthOutcome::Failed { msg } => ("failed", msg.as_str()),
        AuthOutcome::NetworkError { msg } => ("network_error", msg.as_str()),
    };
    let mut v = json::null();
    json::set(&mut v, "kind", json::from_str(kind));
    json::set(&mut v, "msg", json::from_str(msg));
    v
}

fn opt_number(n: Option<u64>) -> (r: Value)
    ensures
        json::json_tree(r) == opt_int(n),
{
    match n {
        Some(n) => json::from_u64(n),
        None => json::null(),
    }
}

impl Guardian {
    /// What is published of the guardian.
    pub fn status_json(&self) -> (r: Value)
        ensures
            json::json_tree(r) == status_tree(self@),
    {
        let net = match &self.snapshot.net {
            Some(s) => net_status_json(s),
            None => json::null(),
        };
        let last_auth = match &self.snapshot.last_auth {
            Some(o) => auth_outcome_json(o),
            None => json::null(),
        };
        let problems = self.cfg.validate();
        let mut v = json::null();
        json::set(&mut v, "version", json::from_str(http::VERSION));
        json::set(&mut v, "state", json::from_str(self.state.as_str()));
        json::set(&mut v, "enabled", json::from_bool(self.running));
        json::set(&mut v, "net", net);
        json::set(&mut v, "last_auth", last_auth);
        json::set(&mut v, "last_auth_ts", opt_number(self.snapshot.last_auth_ts));
        json::set(&mut v, "last_net_ts", opt_number(self.snapshot.last_net_ts));
        json::set(
            &mut v,
            "consecutive_failures",
            json::from_u64(self.snapshot.consecutive_failures as u64),
        );
        json::set(&mut v, "next_check_secs", json::from_u64(self.snapshot.next_check_secs));
        json::set(&mut v, "config_problems", json::from_strings(&problems));
        v
    }

    /// What is published of the guardian, as text. Whoever reads the text finds in it what the
    /// guardian published.
    pub fn status_text(&self) -> (r: String)
        ensures
            json::compact(r@, status_tree(self@)),
    {
        let v = self.status_json();
        proof {
            lemma_status_is_plain(self@);
        }
        json::to_text(&v)
    }
}

/// What is published of a check is small and holds no fractions.
pub proof fn lemma_net_is_plain(s: netcheck::NetView, depth: nat)
    requires
        depth > 0,
    ensures
        json::plain(net_tree(s), depth),
{
    reveal_with_fuel(json::plain, 2);
}

/// What is published of a login is small and holds no fractions.
pub proof fn lemma_auth_is_plain(o: auth::AuthView, depth: nat)
    requires
        depth > 0,
    ensures
        json::plain(auth_tree(o), depth),
{
    reveal_with_fuel(json::plain, 2);
}

proof fn lemma_status_is_plain(m: Model)
    ensures
        json::plain(status_tree(m), 3),
{
    reveal_with_fuel(json::plain, 3);
    if let Some(s) = m.snapshot.net {
        lemma_net_is_plain(s, 2);
    }
    if let Some(o) = m.snapshot.last_auth {
        lemma_auth_is_plain(o, 2);
    }
    assert(json::plain(json::string_array(config::problems(m.cfg)), 2));
}

/// What is published does not depend on who logs in: two guardians in the same state, whose
/// configurations differ only in a student number and a password that are filled in, publish
/// the same.
pub proof fn law_status_holds_no_credentials(m: Model, student_id: Seq<char>, password: Seq<char>)
    requires
        text::is_blank(student_id) == text::is_blank(m.cfg.student_id),
        password.len() == 0 <==> m.cfg.password.len() == 0,
    ensures
        status_tree(Model { cfg: config::Settings { student_id, password, ..m.cfg }, ..m })
            == status_tree(m),
{
}

/// What is published of a check: what kind of network it found, where the portal leads, and
/// why there is none.
pub proof fn law_published_check(text: Seq<char>)
    ensures
        net_tree(netcheck::NetView::Connected) == json::Json::Object(
            map!["kind"@ => json::Json::Str("connected"@)],
        ),
        net_tree(netcheck::NetView::DnsPending) == json::Json::Object(
            map!["kind"@ => json::Json::Str("dns_pending"@)],
        ),
        net_tree(netcheck::NetView::CaptivePortal(text)) == json::Json::Object(
            map![
                "kind"@ => json::Json::Str("captive_portal"@),
                "redirect"@ => json::Json::Str(text)
            ],
        ),
        net_tree(netcheck::NetView::Disconnected(text)) == json::Json::Object(
            map!["kind"@ => json::Json::Str("disconnected"@), "reason"@ => json::Json::Str(text)],
        ),
{
}

/// What is published of a login: how it ended, and what the portal or the network said.
pub proof fn law_published_login(msg: Seq<char>)
    ensures
        auth_tree(auth::AuthView::Success) == json::Json::Object(
            map!["kind"@ => json::Json::Str("success"@), "msg"@ => json::Json::Str(""@)],
        ),
        auth_tree(auth::AuthView::AlreadyOnline) == json::Json::Object(
            map!["kind"@ => json::Json::Str("already_online"@), "msg"@ => json::Json::Str(""@)],
        ),
        auth_tree(auth::AuthView::Failed(msg)) == json::Json::Object(
            map!["kind"@ => json::Json::Str("failed"@), "msg"@ => json::Json::Str(msg)],
        ),
        auth_tree(auth::AuthView::NetworkError(msg)) == json::Json::Object(
            map!["kind"@ => json::Json::Str("network_error"@), "msg"@ => json::Json::Str(msg)],
        ),
{
}

/// Every member of what is published is what the guardian's state says, under its name; and
/// there are no others.
pub proof fn law_published_status(m: Model)
    ensures
        ({
            let j = status_tree(m);
            &&& json::member(j, "version"@) == Some(json::Json::Str(http::VERSION@))
            &&& json::member(j, "state"@) == Some(json::Json::Str(state_name(m.state)))
            &&& json::member(j, "enabled"@) == Some(json::Json::Bool(m.running))
            &&& m.snapshot.net is None ==> json::member(j, "net"@) == Some(json::Json::Null)
            &&& m.snapshot.net is Some ==> json::member(j, "net"@) == Some(
                net_tree(m.snapshot.net->0),
            )
            &&& m.snapshot.last_auth is None ==> json::member(j, "last_auth"@) == Some(
                json::Json::Null,
            )
            &&& m.snapshot.last_auth is Some ==> json::member(j, "last_auth"@) == Some(
                auth_tree(m.snapshot.last_auth->0),
            )
            &&& json::member(j, "last_auth_ts"@) == Some(
                match m.snapshot.last_auth_ts {
                    Some(ts) => json::Json::Int(ts as int),
                    None => json::Json::Null,
                },
            )
            &&& json::member(j, "last_net_ts"@) == Some(
                match m.snapshot.last_net_ts {
                    Some(ts) => json::Json::Int(ts as int),
                    None => json::Json::Null,
                },
            )
            &&& json::member(j, "consecutive_failures"@) == Some(
                json::Json::Int(m.snapshot.consecutive_failures),
            )
            &&& json::member(j, "next_check_secs"@) == Some(
                json::Json::Int(m.snapshot.next_check_secs),
            )
            &&& json::member(j, "config_problems"@) == Some(
                json::string_array(config::problems(m.cfg)),
            )
            &&& json::members(j).dom() == set![
                "version"@,
                "state"@,
                "enabled"@,
                "net"@,
                "last_auth"@,
                "last_auth_ts"@,
                "last_net_ts"@,
                "consecutive_failures"@,
                "next_check_secs"@,
                "config_problems"@,
            ]
        }),
{
    lemma_member_names();
    assert(json::members(status_tree(m)).dom() =~= set![
        "version"@,
        "state"@,
        "enabled"@,
        "net"@,
        "last_auth"@,
        "last_auth_ts"@,
        "last_net_ts"@,
        "consecutive_failures"@,
        "next_check_secs"@,
        "config_problems"@,
    ]);
}

proof fn lemma_member_names()
    ensures
        "version"@.len() == 7 && "version"@[0] == 'v',
        "enabled"@.len() == 7 && "enabled"@[0] == 'e',
        "state"@.len() == 5,
        "net"@.len() == 3,
        "last_auth"@.len() == 9,
        "last_auth_ts"@.len() == 12,
        "last_net_ts"@.len() == 11,
        "consecutive_failures"@.len() == 20,
        "next_check_secs"@.len() == 15 && "next_check_secs"@[0] == 'n',
        "config_problems"@.len() == 15 && "config_problems"@[0] == 'c',
{
    reveal_strlit("version");
    reveal_strlit("state");
    reveal_strlit("enabled");
    reveal_strlit("net");
    reveal_strlit("last_auth");
    reveal_strlit("last_auth_ts");
    reveal_strlit("last_net_ts");
    reveal_strlit("consecutive_failures");
    reveal_strlit("next_check_secs");
    reveal_strlit("config_problems");
}

}
