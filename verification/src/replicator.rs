//! The replicator: its configuration, the life cycle it goes through, and the
//! rules by which documents pass its filters on their way between two
//! databases.

use crate::database::{
    stored_document, DatabaseModel, changes_model, lemma_store_changes, store_changes, store_get, store_has, Change, ChangeModel,
    Database,
};
use crate::document::Document;
use crate::error::{CBLError, CouchbaseLiteError, Error, ErrorCode, NetworkError};
use crate::fleece::{Dict, ValueModel};
use crate::fleece_mutable::{MutableArray, MutableDict};
use crate::encryption::{
    decrypt_properties, decryption_gives, encrypt_properties, encryption_gives, EncryptionError,
};
use crate::text::{chars_of, same_text};
use crate::transfer::{
    checkpoint_after, crypto_report, earlier_of, held_after, pull_opened_all, push_sealed_all,
    with_properties, Passage, pull_all, pull_step, push_all, Answer, change_ids, document_pending, pending_ids, report_of, count_up, id_allowed, is_first, lemma_first_unique, mark_of, marks_set, needs_pull, needs_push,
    pull_candidates, pull_one, pull_settled, pull_unsettled, push_candidates, push_one,
    target_moved, MarkModel, Marks, TransferModel,
};
use vstd::prelude::*;

verus! {

/// Direction of replication: push, pull, or both.
#[derive(Debug, Clone, Copy, PartialEq, Eq, Structural)]
pub enum ReplicatorType {
    PushAndPull,
    Push,
    Pull,
}

impl ReplicatorType {
    /// True when documents go from the local database to the other one.
    pub fn pushes(&self) -> (r: bool)
        ensures
            r == (*self != ReplicatorType::Pull),
    {
        match self {
            ReplicatorType::Pull => false,
            _ => true,
        }
    }

    /// True when documents come from the other database to the local one.
    pub fn pulls(&self) -> (r: bool)
        ensures
            r == (*self != ReplicatorType::Push),
    {
        match self {
            ReplicatorType::Push => false,
            _ => true,
        }
    }
}

/// Types of proxy servers.
#[derive(Debug, Clone, Copy, PartialEq, Eq, Structural)]
pub enum ProxyType {
    HTTP,
    HTTPS,
}

/// Proxy settings for the replicator.
#[derive(Debug)]
pub struct ProxySettings {
    /// The kind of proxy.
    pub proxy_type: ProxyType,
    /// The proxy server's host name or IP address.
    pub hostname: Option<String>,
    /// The proxy server's port.
    pub port: u16,
    /// The user name for the proxy, if it asks for one.
    pub username: Option<String>,
    /// The password for the proxy, if it asks for one.
    pub password: Option<String>,
}

impl ProxySettings {
    /// Proxy settings from their parts.
    pub fn new(
        proxy_type: ProxyType,
        hostname: Option<String>,
        port: u16,
        username: Option<String>,
        password: Option<String>,
    ) -> (r: ProxySettings)
        ensures
            r.proxy_type == proxy_type,
            r.hostname == hostname,
            r.port == port,
            r.username == username,
            r.password == password,
    {
        ProxySettings { proxy_type, hostname, port, username, password }
    }
}

/// The states that a replicator can be in.
#[derive(Debug, Clone, Copy, PartialEq, Eq, Structural)]
pub enum ReplicatorActivityLevel {
    /// Not started, finished, or stopped by a fatal error.
    Stopped,
    /// Offline: the other side cannot be reached.
    Offline,
    /// Connecting to the other side.
    Connecting,
    /// Connected, and waiting for changes.
    Idle,
    /// Connected, and transferring.
    Busy,
}

impl ReplicatorActivityLevel {
    /// The state that a number of the engine stands for: 0 is `Stopped`, 1
    /// `Offline`, 2 `Connecting`, 3 `Idle`, 4 `Busy`. `None` for any other
    /// number.
    pub fn from_u8(level: u8) -> (r: Option<ReplicatorActivityLevel>)
        ensures
            r is Some <==> level <= 4,
            level == 0 ==> r == Some(ReplicatorActivityLevel::Stopped),
            level == 1 ==> r == Some(ReplicatorActivityLevel::Offline),
            level == 2 ==> r == Some(ReplicatorActivityLevel::Connecting),
            level == 3 ==> r == Some(ReplicatorActivityLevel::Idle),
            level == 4 ==> r == Some(ReplicatorActivityLevel::Busy),
    {
        match level {
            0 => Some(ReplicatorActivityLevel::Stopped),
            1 => Some(ReplicatorActivityLevel::Offline),
            2 => Some(ReplicatorActivityLevel::Connecting),
            3 => Some(ReplicatorActivityLevel::Idle),
            4 => Some(ReplicatorActivityLevel::Busy),
            _ => None,
        }
    }

    /// True in the states with a connection or an attempt at one.
    pub open spec fn spec_is_connected(&self) -> bool {
        *self == ReplicatorActivityLevel::Connecting || *self == ReplicatorActivityLevel::Idle
            || *self == ReplicatorActivityLevel::Busy
    }

    /// True in the states with a connection or an attempt at one.
    pub fn is_connected(&self) -> (r: bool)
        ensures
            r == self.spec_is_connected(),
    {
        match self {
            ReplicatorActivityLevel::Connecting => true,
            ReplicatorActivityLevel::Idle => true,
            ReplicatorActivityLevel::Busy => true,
            _ => false,
        }
    }
}

/// The progress of a replicator.
#[derive(Debug, Clone, Copy, PartialEq, Eq, Structural)]
pub struct ReplicatorProgress {
    /// The number of documents transferred so far.
    pub document_count: u64,
}

/// A snapshot of a replicator's state.
#[derive(Debug, Clone, Copy)]
pub struct ReplicatorStatus {
    /// The state.
    pub activity: ReplicatorActivityLevel,
    /// The progress.
    pub progress: ReplicatorProgress,
    /// The error that the replicator met, if any.
    pub error: Result<(), Error>,
}

/// What the replicator asks of the transport that serves it.
#[derive(Debug, Clone, Copy, PartialEq, Eq, Structural)]
pub enum ReplicatorAction {
    /// Nothing to do.
    Nothing,
    /// Open a connection to the other side.
    Connect,
    /// Close the connection, and report when it is closed.
    Disconnect,
    /// Try to connect again after this many seconds.
    ScheduleRetry(u32),
    /// Forget the retry that was scheduled.
    CancelRetry,
}

/// What the transport reports to the replicator.
#[derive(Debug, Clone, Copy, PartialEq, Eq, Structural)]
pub enum ReplicatorEvent {
    /// The connection stands. `work_pending` tells whether there is anything to
    /// transfer.
    Connected { work_pending: bool },
    /// The connection was lost or could not be made. A transient failure may be
    /// retried; any other is fatal.
    ConnectionFailed { error: Error, transient: bool },
    /// The time of a scheduled retry has come.
    RetryDue,
    /// There are changes to transfer.
    WorkPending,
    /// Everything has been transferred.
    CaughtUp,
    /// The connection is closed, as the replicator asked.
    Closed,
}

/// The retry policy and mode of a replicator, as far as its life cycle depends
/// on them.
#[derive(Debug, Clone, Copy, PartialEq, Eq, Structural)]
pub struct RetryPolicy {
    /// True for a replicator that stays connected and waits for changes.
    pub continuous: bool,
    /// The greatest number of connection attempts, the first included; 0 for
    /// the default.
    pub max_attempts: u32,
    /// The greatest wait between attempts, in seconds; 0 for the default.
    pub max_attempt_wait_time: u32,
}

/// The default number of attempts of a replicator that is not continuous.
pub const DEFAULT_ATTEMPTS: u32 = 10;

/// The default greatest wait between attempts, in seconds.
pub const DEFAULT_WAIT_TIME: u32 = 300;

impl RetryPolicy {
    /// The number of attempts that the policy allows: the number given, and for
    /// 0 the default, which is without bound for a continuous replicator and 10
    /// for any other.
    pub open spec fn spec_attempts_allowed(&self) -> u32 {
        if self.max_attempts != 0 {
            self.max_attempts
        } else if self.continuous {
            u32::MAX
        } else {
            DEFAULT_ATTEMPTS
        }
    }

    /// The greatest wait that the policy allows: the number given, and for 0
    /// the default of 300 seconds.
    pub open spec fn spec_wait_ceiling(&self) -> u32 {
        if self.max_attempt_wait_time != 0 {
            self.max_attempt_wait_time
        } else {
            DEFAULT_WAIT_TIME
        }
    }

    /// The number of attempts that the policy allows.
    pub fn attempts_allowed(&self) -> (r: u32)
        ensures
            r == self.spec_attempts_allowed(),
            r >= 1,
    {
        if self.max_attempts != 0 {
            self.max_attempts
        } else if self.continuous {
            u32::MAX
        } else {
            DEFAULT_ATTEMPTS
        }
    }

    /// The greatest wait that the policy allows, in seconds.
    pub fn wait_ceiling(&self) -> (r: u32)
        ensures
            r == self.spec_wait_ceiling(),
            r >= 1,
    {
        if self.max_attempt_wait_time != 0 {
            self.max_attempt_wait_time
        } else {
            DEFAULT_WAIT_TIME
        }
    }

    /// The wait before the next attempt, after `attempts` attempts have failed.
    pub fn retry_delay(&self, attempts: u32) -> (r: u32)
        ensures
            r == backoff(attempts as nat, self.spec_wait_ceiling() as nat),
            1 <= r <= self.spec_wait_ceiling(),
    {
        let ceiling = self.wait_ceiling();
        let mut delay: u32 = 1;
        let mut i: u32 = 0;
        while i < attempts && delay < ceiling
            invariant
                i <= attempts,
                ceiling >= 1,
                delay == backoff(i as nat, ceiling as nat),
                1 <= delay <= ceiling,
            decreases attempts - i,
        {
            if delay > ceiling / 2 {
                delay = ceiling;
            } else {
                delay = delay * 2;
            }
            i += 1;
        }
        proof {
            if i < attempts {
                lemma_backoff_stays(i as nat, attempts as nat, ceiling as nat);
            }
        }
        delay
    }
}

/// The wait after `attempts` failed attempts: one second at first, doubled with
/// each further attempt, and never above `ceiling`.
pub open spec fn backoff(attempts: nat, ceiling: nat) -> nat
    decreases attempts,
{
    if attempts == 0 {
        if ceiling < 1 {
            ceiling
        } else {
            1
        }
    } else if 2 * backoff((attempts - 1) as nat, ceiling) > ceiling {
        ceiling
    } else {
        2 * backoff((attempts - 1) as nat, ceiling)
    }
}

/// The wait never passes the ceiling, and never gets shorter with more
/// attempts.
pub proof fn lemma_backoff_bounds(attempts: nat, ceiling: nat)
    ensures
        backoff(attempts, ceiling) <= ceiling,
        attempts > 0 ==> backoff((attempts - 1) as nat, ceiling) <= backoff(attempts, ceiling),
    decreases attempts,
{
    if attempts > 0 {
        lemma_backoff_bounds((attempts - 1) as nat, ceiling);
    }
}

/// Once the wait has reached the ceiling it stays there.
proof fn lemma_backoff_stays(from: nat, to: nat, ceiling: nat)
    requires
        from <= to,
        ceiling >= 1,
        backoff(from, ceiling) == ceiling,
    ensures
        backoff(to, ceiling) == ceiling,
    decreases to - from,
{
    if from < to {
        lemma_backoff_stays(from, (to - 1) as nat, ceiling);
    }
}


/// Where a replicator stands in its life cycle.
#[derive(Debug, Clone, Copy, PartialEq, Eq, Structural)]
pub struct Lifecycle {
    /// The state that the replicator reports.
    pub activity: ReplicatorActivityLevel,
    /// True from a request to stop until the transport has closed.
    pub stopping: bool,
    /// True while the replicator is suspended.
    pub suspended: bool,
    /// True while the other side counts as reachable.
    pub host_reachable: bool,
    /// True where the replicator was connected, or about to connect, when it
    /// was suspended; then it connects again when the suspension ends.
    pub resume_on_unsuspend: bool,
    /// The number of connection attempts since the last connection that stood.
    pub attempts: u32,
    /// True while a retry is scheduled.
    pub retry_scheduled: bool,
    /// The error that the replicator met last, if any.
    pub error: Option<Error>,
}

/// One more than `n`, but never past the greatest number.
pub open spec fn one_more(n: u32) -> u32 {
    if n < u32::MAX {
        (n + 1) as u32
    } else {
        n
    }
}

impl Lifecycle {
    /// The life cycle of a new replicator: stopped, not suspended, the other
    /// side counted as reachable.
    pub open spec fn spec_new() -> Lifecycle {
        Lifecycle {
            activity: ReplicatorActivityLevel::Stopped,
            stopping: false,
            suspended: false,
            host_reachable: true,
            resume_on_unsuspend: false,
            attempts: 0,
            retry_scheduled: false,
            error: None,
        }
    }

    /// What holds of every life cycle that began as a new one: a stopped
    /// replicator neither stops nor retries; a retry is scheduled only offline,
    /// unsuspended, with the other side reachable and no stop requested; a
    /// suspended replicator is not connected; a connecting one is within the
    /// attempts that its policy allows; and an offline one that may connect
    /// again has an attempt left.
    pub open spec fn wf(&self, policy: RetryPolicy) -> bool {
        &&& self.activity == ReplicatorActivityLevel::Stopped ==> !self.stopping
            && !self.retry_scheduled
        &&& self.retry_scheduled ==> self.activity == ReplicatorActivityLevel::Offline
            && !self.suspended && self.host_reachable && !self.stopping
        &&& self.suspended ==> !self.activity.spec_is_connected()
        &&& self.activity == ReplicatorActivityLevel::Connecting ==> 1 <= self.attempts
            <= policy.spec_attempts_allowed()
        &&& self.activity == ReplicatorActivityLevel::Offline && !self.stopping && !(
        self.suspended && self.resume_on_unsuspend) ==> self.attempts
            < policy.spec_attempts_allowed()
    }

    /// What `start` does. A stopped replicator begins to connect, with its
    /// first attempt and without an error; a suspended one goes offline instead
    /// and connects when the suspension ends. A replicator that is not stopped
    /// stays as it is.
    pub open spec fn spec_start(self) -> (Lifecycle, ReplicatorAction) {
        if self.activity != ReplicatorActivityLevel::Stopped {
            (self, ReplicatorAction::Nothing)
        } else if self.suspended {
            (
                Lifecycle {
                    activity: ReplicatorActivityLevel::Offline,
                    resume_on_unsuspend: true,
                    attempts: 0,
                    error: None,
                    ..self
                },
                ReplicatorAction::Nothing,
            )
        } else {
            (
                Lifecycle {
                    activity: ReplicatorActivityLevel::Connecting,
                    attempts: 1,
                    error: None,
                    ..self
                },
                ReplicatorAction::Connect,
            )
        }
    }

    /// What `stop` does. A replicator that is not stopped is told to close its
    /// connection, and counts as active until the transport reports that it is
    /// closed; a scheduled retry is dropped. A stopped one stays as it is.
    pub open spec fn spec_stop(self) -> (Lifecycle, ReplicatorAction) {
        if self.activity == ReplicatorActivityLevel::Stopped {
            (self, ReplicatorAction::Nothing)
        } else {
            (
                Lifecycle { stopping: true, retry_scheduled: false, ..self },
                ReplicatorAction::Disconnect,
            )
        }
    }

    /// What `set_host_reachable` does. The flag is kept. It matters only
    /// offline, unsuspended and with no stop requested: there `true` starts the
    /// next attempt at once, and `false` drops the scheduled retry so that none
    /// follows.
    pub open spec fn spec_set_host_reachable(self, reachable: bool) -> (
        Lifecycle,
        ReplicatorAction,
    ) {
        if self.activity == ReplicatorActivityLevel::Offline && !self.suspended && !self.stopping {
            if reachable {
                (
                    Lifecycle {
                        host_reachable: true,
                        activity: ReplicatorActivityLevel::Connecting,
                        attempts: one_more(self.attempts),
                        retry_scheduled: false,
                        ..self
                    },
                    ReplicatorAction::Connect,
                )
            } else {
                (
                    Lifecycle { host_reachable: false, retry_scheduled: false, ..self },
                    ReplicatorAction::CancelRetry,
                )
            }
        } else {
            (Lifecycle { host_reachable: reachable, ..self }, ReplicatorAction::Nothing)
        }
    }

    /// What `set_suspended` does. Suspending takes a connected replicator
    /// offline and remembers that it was connected; it drops a scheduled retry.
    /// Ending the suspension connects again only where the replicator was
    /// connected when it was suspended, is still offline, and has not been asked
    /// to stop. Setting the flag to what it is changes nothing.
    pub open spec fn spec_set_suspended(self, suspended: bool) -> (Lifecycle, ReplicatorAction) {
        if suspended == self.suspended {
            (self, ReplicatorAction::Nothing)
        } else if suspended {
            if self.activity.spec_is_connected() {
                (
                    Lifecycle {
                        suspended: true,
                        resume_on_unsuspend: true,
                        activity: ReplicatorActivityLevel::Offline,
                        retry_scheduled: false,
                        ..self
                    },
                    ReplicatorAction::Disconnect,
                )
            } else {
                (
                    Lifecycle {
                        suspended: true,
                        resume_on_unsuspend: false,
                        retry_scheduled: false,
                        ..self
                    },
                    if self.retry_scheduled {
                        ReplicatorAction::CancelRetry
                    } else {
                        ReplicatorAction::Nothing
                    },
                )
            }
        } else if self.activity == ReplicatorActivityLevel::Offline && self.resume_on_unsuspend
            && !self.stopping {
            (
                Lifecycle {
                    suspended: false,
                    resume_on_unsuspend: false,
                    activity: ReplicatorActivityLevel::Connecting,
                    attempts: 1,
                    ..self
                },
                ReplicatorAction::Connect,
            )
        } else {
            (Lifecycle { suspended: false, ..self }, ReplicatorAction::Nothing)
        }
    }

    /// The life cycle at rest after a run: stopped, nothing requested or
    /// scheduled.
    pub open spec fn spec_stopped(self, error: Option<Error>) -> Lifecycle {
        Lifecycle {
            activity: ReplicatorActivityLevel::Stopped,
            stopping: false,
            retry_scheduled: false,
            resume_on_unsuspend: false,
            error,
            ..self
        }
    }

    /// What an event of the transport does.
    ///
    /// After a request to stop, the report that the connection is closed or has
    /// failed stops the replicator, and nothing else moves it.
    ///
    /// Otherwise: a connection that stands takes a connecting replicator to
    /// busy where there is work, else to idle where it is continuous, else to
    /// stopped, its run being done. A failure takes a connected replicator
    /// offline where the failure is transient and an attempt is left, with a
    /// retry scheduled where the other side counts as reachable; any other
    /// failure stops it with the error. A due retry takes an offline replicator
    /// with a scheduled retry to connecting, with one attempt more. Pending work
    /// takes an idle replicator to busy. Having caught up takes a busy one to
    /// idle where it is continuous, else to stopped. Every other event leaves
    /// the replicator as it is.
    pub open spec fn spec_handle(self, policy: RetryPolicy, event: ReplicatorEvent) -> (
        Lifecycle,
        ReplicatorAction,
    ) {
        if self.stopping {
            match event {
                ReplicatorEvent::Closed => (self.spec_stopped(self.error), ReplicatorAction::Nothing),
                ReplicatorEvent::ConnectionFailed { .. } => (
                    self.spec_stopped(self.error),
                    ReplicatorAction::Nothing,
                ),
                _ => (self, ReplicatorAction::Nothing),
            }
        } else {
            match event {
                ReplicatorEvent::Connected { work_pending } => {
                    if self.activity != ReplicatorActivityLevel::Connecting {
                        (self, ReplicatorAction::Nothing)
                    } else if work_pending {
                        (
                            Lifecycle {
                                activity: ReplicatorActivityLevel::Busy,
                                attempts: 0,
                                error: None,
                                ..self
                            },
                            ReplicatorAction::Nothing,
                        )
                    } else if policy.continuous {
                        (
                            Lifecycle {
                                activity: ReplicatorActivityLevel::Idle,
                                attempts: 0,
                                error: None,
                                ..self
                            },
                            ReplicatorAction::Nothing,
                        )
                    } else {
                        (self.spec_stopped(None), ReplicatorAction::Disconnect)
                    }
                },
                ReplicatorEvent::ConnectionFailed { error, transient } => {
                    if !self.activity.spec_is_connected() {
                        (self, ReplicatorAction::Nothing)
                    } else if transient && self.attempts < policy.spec_attempts_allowed() {
                        (
                            Lifecycle {
                                activity: ReplicatorActivityLevel::Offline,
                                error: Some(error),
                                retry_scheduled: self.host_reachable,
                                ..self
                            },
                            if self.host_reachable {
                                ReplicatorAction::ScheduleRetry(
                                    backoff(
                                        self.attempts as nat,
                                        policy.spec_wait_ceiling() as nat,
                                    ) as u32,
                                )
                            } else {
                                ReplicatorAction::Nothing
                            },
                        )
                    } else {
                        (self.spec_stopped(Some(error)), ReplicatorAction::Nothing)
                    }
                },
                ReplicatorEvent::RetryDue => {
                    if self.activity == ReplicatorActivityLevel::Offline && self.retry_scheduled {
                        (
                            Lifecycle {
                                activity: ReplicatorActivityLevel::Connecting,
                                attempts: one_more(self.attempts),
                                retry_scheduled: false,
                                ..self
                            },
                            ReplicatorAction::Connect,
                        )
                    } else {
                        (self, ReplicatorAction::Nothing)
                    }
                },
                ReplicatorEvent::WorkPending => {
                    if self.activity == ReplicatorActivityLevel::Idle {
                        (
                            Lifecycle { activity: ReplicatorActivityLevel::Busy, ..self },
                            ReplicatorAction::Nothing,
                        )
                    } else {
                        (self, ReplicatorAction::Nothing)
                    }
                },
                ReplicatorEvent::CaughtUp => {
                    if self.activity != ReplicatorActivityLevel::Busy {
                        (self, ReplicatorAction::Nothing)
                    } else if policy.continuous {
                        (
                            Lifecycle { activity: ReplicatorActivityLevel::Idle, ..self },
                            ReplicatorAction::Nothing,
                        )
                    } else {
                        (self.spec_stopped(None), ReplicatorAction::Disconnect)
                    }
                },
                ReplicatorEvent::Closed => (self, ReplicatorAction::Nothing),
            }
        }
    }

    /// The life cycle of a new replicator.
    pub fn new() -> (r: Lifecycle)
        ensures
            r == Self::spec_new(),
            forall|policy: RetryPolicy| r.wf(policy),
    {
        Lifecycle {
            activity: ReplicatorActivityLevel::Stopped,
            stopping: false,
            suspended: false,
            host_reachable: true,
            resume_on_unsuspend: false,
            attempts: 0,
            retry_scheduled: false,
            error: None,
        }
    }

    fn stopped(self, error: Option<Error>) -> (r: Lifecycle)
        ensures
            r == self.spec_stopped(error),
    {
        Lifecycle {
            activity: ReplicatorActivityLevel::Stopped,
            stopping: false,
            retry_scheduled: false,
            resume_on_unsuspend: false,
            error,
            ..self
        }
    }

    fn next_attempt(self) -> (r: u32)
        ensures
            r == one_more(self.attempts),
    {
        if self.attempts < u32::MAX {
            self.attempts + 1
        } else {
            self.attempts
        }
    }

    /// Starts the replicator; see `spec_start`.
    pub fn start(&mut self, policy: &RetryPolicy) -> (action: ReplicatorAction)
        requires
            old(self).wf(*policy),
        ensures
            (*final(self), action) == old(self).spec_start(),
            final(self).wf(*policy),
    {
        if self.activity != ReplicatorActivityLevel::Stopped {
            ReplicatorAction::Nothing
        } else if self.suspended {
            self.activity = ReplicatorActivityLevel::Offline;
            self.resume_on_unsuspend = true;
            self.attempts = 0;
            self.error = None;
            ReplicatorAction::Nothing
        } else {
            self.activity = ReplicatorActivityLevel::Connecting;
            self.attempts = 1;
            self.error = None;
            ReplicatorAction::Connect
        }
    }

    /// Asks the replicator to stop; see `spec_stop`.
    pub fn stop(&mut self, policy: &RetryPolicy) -> (action: ReplicatorAction)
        requires
            old(self).wf(*policy),
        ensures
            (*final(self), action) == old(self).spec_stop(),
            final(self).wf(*policy),
    {
        if self.activity == ReplicatorActivityLevel::Stopped {
            ReplicatorAction::Nothing
        } else {
            self.stopping = true;
            self.retry_scheduled = false;
            ReplicatorAction::Disconnect
        }
    }

    /// Tells the replicator whether the other side can be reached; see
    /// `spec_set_host_reachable`.
    pub fn set_host_reachable(&mut self, policy: &RetryPolicy, reachable: bool) -> (action:
        ReplicatorAction)
        requires
            old(self).wf(*policy),
        ensures
            (*final(self), action) == old(self).spec_set_host_reachable(reachable),
            final(self).wf(*policy),
    {
        if self.activity == ReplicatorActivityLevel::Offline && !self.suspended && !self.stopping {
            if reachable {
                self.host_reachable = true;
                self.activity = ReplicatorActivityLevel::Connecting;
                self.attempts = self.next_attempt();
                self.retry_scheduled = false;
                ReplicatorAction::Connect
            } else {
                self.host_reachable = false;
                self.retry_scheduled = false;
                ReplicatorAction::CancelRetry
            }
        } else {
            self.host_reachable = reachable;
            ReplicatorAction::Nothing
        }
    }

    /// Suspends the replicator or ends its suspension; see
    /// `spec_set_suspended`.
    pub fn set_suspended(&mut self, policy: &RetryPolicy, suspended: bool) -> (action:
        ReplicatorAction)
        requires
            old(self).wf(*policy),
        ensures
            (*final(self), action) == old(self).spec_set_suspended(suspended),
            final(self).wf(*policy),
    {
        if suspended == self.suspended {
            ReplicatorAction::Nothing
        } else if suspended {
            if self.activity.is_connected() {
                self.suspended = true;
                self.resume_on_unsuspend = true;
                self.activity = ReplicatorActivityLevel::Offline;
                self.retry_scheduled = false;
                ReplicatorAction::Disconnect
            } else {
                let had_retry = self.retry_scheduled;
                self.suspended = true;
                self.resume_on_unsuspend = false;
                self.retry_scheduled = false;
                if had_retry {
                    ReplicatorAction::CancelRetry
                } else {
                    ReplicatorAction::Nothing
                }
            }
        } else if self.activity == ReplicatorActivityLevel::Offline && self.resume_on_unsuspend
            && !self.stopping {
            self.suspended = false;
            self.resume_on_unsuspend = false;
            self.activity = ReplicatorActivityLevel::Connecting;
            self.attempts = 1;
            ReplicatorAction::Connect
        } else {
            self.suspended = false;
            ReplicatorAction::Nothing
        }
    }

    /// Takes in an event of the transport; see `spec_handle`.
    pub fn handle(&mut self, policy: &RetryPolicy, event: ReplicatorEvent) -> (action:
        ReplicatorAction)
        requires
            old(self).wf(*policy),
        ensures
            (*final(self), action) == old(self).spec_handle(*policy, event),
            final(self).wf(*policy),
    {
        if self.stopping {
            match event {
                ReplicatorEvent::Closed => {
                    *self = self.stopped(self.error);
                    ReplicatorAction::Nothing
                },
                ReplicatorEvent::ConnectionFailed { .. } => {
                    *self = self.stopped(self.error);
                    ReplicatorAction::Nothing
                },
                _ => ReplicatorAction::Nothing,
            }
        } else {
            match event {
                ReplicatorEvent::Connected { work_pending } => {
                    if self.activity != ReplicatorActivityLevel::Connecting {
                        ReplicatorAction::Nothing
                    } else if work_pending {
                        self.activity = ReplicatorActivityLevel::Busy;
                        self.attempts = 0;
                        self.error = None;
                        ReplicatorAction::Nothing
                    } else if policy.continuous {
                        self.activity = ReplicatorActivityLevel::Idle;
                        self.attempts = 0;
                        self.error = None;
                        ReplicatorAction::Nothing
                    } else {
                        *self = self.stopped(None);
                        ReplicatorAction::Disconnect
                    }
                },
                ReplicatorEvent::ConnectionFailed { error, transient } => {
                    if !self.activity.is_connected() {
                        ReplicatorAction::Nothing
                    } else if transient && self.attempts < policy.attempts_allowed() {
                        let delay = policy.retry_delay(self.attempts);
                        self.activity = ReplicatorActivityLevel::Offline;
                        self.error = Some(error);
                        self.retry_scheduled = self.host_reachable;
                        if self.host_reachable {
                            ReplicatorAction::ScheduleRetry(delay)
                        } else {
                            ReplicatorAction::Nothing
                        }
                    } else {
                        *self = self.stopped(Some(error));
                        ReplicatorAction::Nothing
                    }
                },
                ReplicatorEvent::RetryDue => {
                    if self.activity == ReplicatorActivityLevel::Offline && self.retry_scheduled {
                        self.activity = ReplicatorActivityLevel::Connecting;
                        self.attempts = self.next_attempt();
                        self.retry_scheduled = false;
                        ReplicatorAction::Connect
                    } else {
                        ReplicatorAction::Nothing
                    }
                },
                ReplicatorEvent::WorkPending => {
                    if self.activity == ReplicatorActivityLevel::Idle {
                        self.activity = ReplicatorActivityLevel::Busy;
                    }
                    ReplicatorAction::Nothing
                },
                ReplicatorEvent::CaughtUp => {
                    if self.activity != ReplicatorActivityLevel::Busy {
                        ReplicatorAction::Nothing
                    } else if policy.continuous {
                        self.activity = ReplicatorActivityLevel::Idle;
                        ReplicatorAction::Nothing
                    } else {
                        *self = self.stopped(None);
                        ReplicatorAction::Disconnect
                    }
                },
                ReplicatorEvent::Closed => ReplicatorAction::Nothing,
            }
        }
    }
}

/// A continuous replicator that is started while it is stopped and not
/// suspended, and whose first connection stands with nothing to transfer, is
/// idle: it does not stay at connecting.
pub proof fn lemma_start_reaches_idle(s: Lifecycle, policy: RetryPolicy)
    requires
        s.wf(policy),
        s.activity == ReplicatorActivityLevel::Stopped,
        !s.suspended,
        policy.continuous,
    ensures
        s.spec_start().0.activity == ReplicatorActivityLevel::Connecting,
        s.spec_start().1 == ReplicatorAction::Connect,
        s.spec_start().0.spec_handle(
            policy,
            ReplicatorEvent::Connected { work_pending: false },
        ).0.activity == ReplicatorActivityLevel::Idle,
{
}

/// A replicator that is asked to stop counts as active until the transport
/// reports that the connection is closed; with that report it is stopped.
pub proof fn lemma_stop_is_confirmed(s: Lifecycle, policy: RetryPolicy)
    requires
        s.wf(policy),
        s.activity != ReplicatorActivityLevel::Stopped,
    ensures
        s.spec_stop().0.activity == s.activity,
        s.spec_stop().1 == ReplicatorAction::Disconnect,
        s.spec_stop().0.spec_handle(policy, ReplicatorEvent::Closed).0.activity
            == ReplicatorActivityLevel::Stopped,
        forall|event: ReplicatorEvent|
            !(event is Closed) && !(event is ConnectionFailed) ==> s.spec_stop().0.spec_handle(
                policy,
                event,
            ).0 == s.spec_stop().0,
{
}

/// With the policy of a single attempt there is no retry: the first failure
/// stops the replicator, transient or not.
pub proof fn lemma_single_attempt(s: Lifecycle, policy: RetryPolicy, error: Error, transient: bool)
    requires
        s.wf(policy),
        policy.max_attempts == 1,
        s.activity == ReplicatorActivityLevel::Connecting,
        !s.stopping,
    ensures
        s.spec_handle(policy, ReplicatorEvent::ConnectionFailed { error, transient }).0.activity
            == ReplicatorActivityLevel::Stopped,
        s.spec_handle(policy, ReplicatorEvent::ConnectionFailed { error, transient }).0.error
            == Some(error),
{
}

/// While the replicator is suspended nothing makes it connect: no event, and
/// no news of the other side being reachable.
pub proof fn lemma_suspended_stays_offline(
    s: Lifecycle,
    policy: RetryPolicy,
    event: ReplicatorEvent,
    reachable: bool,
)
    requires
        s.wf(policy),
        s.suspended,
    ensures
        !s.spec_handle(policy, event).0.activity.spec_is_connected(),
        s.spec_handle(policy, event).1 != ReplicatorAction::Connect,
        !s.spec_set_host_reachable(reachable).0.activity.spec_is_connected(),
        s.spec_set_host_reachable(reachable).1 != ReplicatorAction::Connect,
{
}


/// The flag of a replicated document that was deleted.
pub const DELETED: u32 = 1;

/// The flag of a replicated document to which the user has lost access.
pub const ACCESS_REMOVED: u32 = 2;

/// Reads the flags of a replicated document: whether it was deleted, and
/// whether access to it was removed.
pub fn read_document_flags(flags: u32) -> (r: (bool, bool))
    ensures
        r.0 == (flags & DELETED != 0),
        r.1 == (flags & ACCESS_REMOVED != 0),
{
    (flags & DELETED != 0, flags & ACCESS_REMOVED != 0)
}

/// The flags of a replicated document that was deleted or not, and to which
/// access was removed or not.
pub fn document_flags(deleted: bool, access_removed: bool) -> (flags: u32)
    ensures
        flags == spec_document_flags(deleted, access_removed),
        flags & DELETED != 0 <==> deleted,
        flags & ACCESS_REMOVED != 0 <==> access_removed,
{
    assert(0u32 & 1 == 0 && 0u32 & 2 == 0 && 1u32 & 1 != 0 && 1u32 & 2 == 0 && 2u32 & 1 == 0
        && 2u32 & 2 != 0 && 3u32 & 1 != 0 && 3u32 & 2 != 0) by (bit_vector);
    if deleted {
        if access_removed {
            3
        } else {
            1
        }
    } else if access_removed {
        2
    } else {
        0
    }
}

/// The flags of a replicated document, as a number: 1 for deleted, 2 for access
/// removed, their sum for both.
pub open spec fn spec_document_flags(deleted: bool, access_removed: bool) -> u32 {
    if deleted {
        if access_removed {
            3
        } else {
            1
        }
    } else if access_removed {
        2
    } else {
        0
    }
}

/// Direction of document transfer.
#[derive(Debug, Clone, Copy, PartialEq, Eq, Structural)]
pub enum Direction {
    Pulled,
    Pushed,
}

/// The direction that a replicated document went.
pub fn direction_of(is_push: bool) -> (r: Direction)
    ensures
        r == (if is_push {
            Direction::Pushed
        } else {
            Direction::Pulled
        }),
{
    if is_push {
        Direction::Pushed
    } else {
        Direction::Pulled
    }
}

/// What is reported of a document that was pushed or pulled.
#[derive(Debug)]
pub struct ReplicatedDocument {
    /// The document's id.
    pub id: String,
    /// The flags: deleted, access removed.
    pub flags: u32,
    /// The error, where the document failed to replicate.
    pub error: Result<(), Error>,
}

/// What is reported of a replicated document, as mathematics.
pub ghost struct ReplicatedModel {
    pub id: Seq<char>,
    pub flags: u32,
    pub error: Option<Error>,
}

impl View for ReplicatedDocument {
    type V = ReplicatedModel;

    open spec fn view(&self) -> ReplicatedModel {
        ReplicatedModel {
            id: self.id@,
            flags: self.flags,
            error: match self.error {
                Ok(_) => None,
                Err(e) => Some(e),
            },
        }
    }
}

/// The report of one replicated document as the engine hands it over: the id,
/// which is missing where it is no valid text, the flags, and an error record.
/// The result is the report for the listeners; `None` where the id is missing.
pub fn replicated_document(id: Option<String>, flags: u32, error: &CBLError) -> (r: Option<
    ReplicatedDocument,
>)
    ensures
        id is None ==> r is None,
        id matches Some(text) ==> (r matches Some(d) && d@ == (ReplicatedModel {
            id: text@,
            flags,
            error: if error.domain == 0 || error.code == 0 {
                None
            } else {
                Some(Error::spec_new(*error))
            },
        })),
{
    match id {
        Some(text) => Some(ReplicatedDocument { id: text, flags, error: crate::error::check_error(error) }),
        None => None,
    }
}

/// The address of the database to replicate with: the URL of a remote one, or a
/// local database by its name.
#[derive(Debug, PartialEq, Eq)]
pub struct Endpoint {
    /// The URL of a remote database; `None` for a local one.
    pub url: Option<String>,
    /// The name of a local database; `None` for a remote one.
    pub database: Option<String>,
}

/// The characters `ws://`.
pub open spec fn ws_prefix() -> Seq<char> {
    seq!['w', 's', ':', '/', '/']
}

/// The characters `wss://`.
pub open spec fn wss_prefix() -> Seq<char> {
    seq!['w', 's', 's', ':', '/', '/']
}

/// A URL that a replicator can connect to: it begins with `ws://` or `wss://`,
/// and something follows.
pub open spec fn is_endpoint_url(url: Seq<char>) -> bool {
    ||| url.len() > 5 && url.subrange(0, 5) == ws_prefix()
    ||| url.len() > 6 && url.subrange(0, 6) == wss_prefix()
}

impl Endpoint {
    /// The endpoint of a remote database. Fails with the network error
    /// `InvalidURL` where `url` is no URL that a replicator can connect to.
    pub fn new_with_url(url: &str) -> (r: Result<Endpoint, Error>)
        ensures
            is_endpoint_url(url@) ==> (r matches Ok(e) && e.database is None && (
            e.url matches Some(u) && u@ == url@)),
            !is_endpoint_url(url@) ==> r == Err::<Endpoint, Error>(
                Error { code: ErrorCode::Network(NetworkError::InvalidURL), internal_info: None },
            ),
    {
        let c = chars_of(url);
        let n = c.len();
        let ws = n > 5 && c[0] == 'w' && c[1] == 's' && c[2] == ':' && c[3] == '/' && c[4] == '/';
        let wss = n > 6 && c[0] == 'w' && c[1] == 's' && c[2] == 's' && c[3] == ':' && c[4] == '/'
            && c[5] == '/';
        proof {
            if n > 5 {
                let head = url@.subrange(0, 5);
                if ws {
                    assert(head =~= ws_prefix());
                } else {
                    if head == ws_prefix() {
                        assert(head[0] == 'w' && head[1] == 's' && head[2] == ':' && head[3] == '/'
                            && head[4] == '/');
                    }
                }
            }
            if n > 6 {
                let head = url@.subrange(0, 6);
                if wss {
                    assert(head =~= wss_prefix());
                } else {
                    if head == wss_prefix() {
                        assert(head[0] == 'w' && head[1] == 's' && head[2] == 's' && head[3] == ':'
                            && head[4] == '/' && head[5] == '/');
                    }
                }
            }
        }
        if ws || wss {
            Ok(Endpoint { url: Some(url.to_owned()), database: None })
        } else {
            Err(Error { code: ErrorCode::Network(NetworkError::InvalidURL), internal_info: None })
        }
    }

    /// The endpoint of a local database.
    pub fn new_with_local_db(db: &Database) -> (r: Endpoint)
        ensures
            r.url is None,
            r.database matches Some(name) && name@ == db.spec_name(),
    {
        Endpoint { url: None, database: Some(db.name().to_owned()) }
    }

    /// True for the endpoint of a local database.
    pub fn is_local(&self) -> (r: bool)
        ensures
            r == (self.url is None),
    {
        self.url.is_none()
    }
}

/// How a replicator proves who it is.
#[derive(Debug, Clone, Copy, PartialEq, Eq, Structural)]
pub enum AuthenticatorKind {
    /// A user name and a password.
    Password,
    /// A session id and the name of the cookie that carries it.
    Session,
}

/// Credentials for a remote server.
#[derive(Debug, PartialEq, Eq)]
pub struct Authenticator {
    /// Which kind of credentials these are.
    pub kind: AuthenticatorKind,
    /// The user name, or the session id.
    pub name: String,
    /// The password, or the cookie name.
    pub secret: String,
}

impl Authenticator {
    /// Credentials of a user name and a password.
    pub fn create_password(username: &str, password: &str) -> (r: Authenticator)
        ensures
            r.kind == AuthenticatorKind::Password,
            r.name@ == username@,
            r.secret@ == password@,
    {
        Authenticator {
            kind: AuthenticatorKind::Password,
            name: username.to_owned(),
            secret: password.to_owned(),
        }
    }

    /// Credentials of a session id and the name of its cookie.
    pub fn create_session(session_id: &str, cookie_name: &str) -> (r: Authenticator)
        ensures
            r.kind == AuthenticatorKind::Session,
            r.name@ == session_id@,
            r.secret@ == cookie_name@,
    {
        Authenticator {
            kind: AuthenticatorKind::Session,
            name: session_id.to_owned(),
            secret: cookie_name.to_owned(),
        }
    }
}

/// The configuration of a replicator.
#[derive(Debug)]
pub struct ReplicatorConfiguration {
    /// The name of the local database to replicate.
    pub database: String,
    /// The address of the other database.
    pub endpoint: Endpoint,
    /// Push, pull or both.
    pub replicator_type: ReplicatorType,
    /// True for a replicator that stays connected and waits for changes.
    pub continuous: bool,
    /// True where documents to which access was removed are kept, and only
    /// reported; false where they are purged as well.
    pub disable_auto_purge: bool,
    /// The greatest number of connection attempts, the first included; 0 for
    /// the default.
    pub max_attempts: u32,
    /// The greatest wait between attempts, in seconds; 0 for the default.
    pub max_attempt_wait_time: u32,
    /// The heartbeat interval in seconds; 0 for the default.
    pub heartbeat: u32,
    /// Credentials, if the other side asks for them.
    pub authenticator: Option<Authenticator>,
    /// Proxy settings, if a proxy is in the way.
    pub proxy: Option<ProxySettings>,
    /// Extra headers for the request that opens the connection.
    pub headers: Vec<(String, String)>,
    /// A certificate that the server's must match.
    pub pinned_server_certificate: Option<Vec<u8>>,
    /// The root certificates to trust.
    pub trusted_root_certificates: Option<Vec<u8>>,
    /// The channels to pull from; none for all.
    pub channels: MutableArray,
    /// The ids of the documents to replicate; none for all.
    pub document_ids: MutableArray,
}

impl ReplicatorConfiguration {
    /// The retry policy that the configuration asks for.
    pub open spec fn spec_policy(&self) -> RetryPolicy {
        RetryPolicy {
            continuous: self.continuous,
            max_attempts: self.max_attempts,
            max_attempt_wait_time: self.max_attempt_wait_time,
        }
    }

    /// The retry policy that the configuration asks for.
    pub fn policy(&self) -> (r: RetryPolicy)
        ensures
            r == self.spec_policy(),
    {
        RetryPolicy {
            continuous: self.continuous,
            max_attempts: self.max_attempts,
            max_attempt_wait_time: self.max_attempt_wait_time,
        }
    }

    /// The heartbeat interval that the configuration asks for, in seconds: the
    /// number given, and for 0 the default of 300.
    pub fn heartbeat_seconds(&self) -> (r: u32)
        ensures
            r == (if self.heartbeat != 0 {
                self.heartbeat
            } else {
                DEFAULT_WAIT_TIME
            }),
    {
        if self.heartbeat != 0 {
            self.heartbeat
        } else {
            DEFAULT_WAIT_TIME
        }
    }
}

/// The callbacks of a replicator: a filter for documents on their way out, one
/// for documents on their way in, a resolver of conflicts, and the two that
/// encrypt and decrypt properties. Each may be missing.
pub struct ReplicationConfigurationContext<PF, LF, CR, EN, DE> {
    /// Decides whether a document is pushed.
    pub push_filter: Option<PF>,
    /// Decides whether a document that comes in is taken.
    pub pull_filter: Option<LF>,
    /// Decides what becomes of a document that both sides have changed.
    pub conflict_resolver: Option<CR>,
    /// Encrypts a property of a document on its way out.
    pub property_encryptor: Option<EN>,
    /// Decrypts a property of a document on its way in.
    pub property_decryptor: Option<DE>,
}

/// What becomes of a property that is to be encrypted or decrypted, given what
/// the callback made of it. `input_present` tells whether the engine handed
/// over any bytes; `outcome` is `None` where no callback is installed, else
/// the callback's bytes or its failure; `incoming` is the error record as the
/// engine handed it over.
///
/// The result is the bytes to hand back and the error record to leave. Without
/// input, or with a callback that failed, no bytes are handed back and the
/// error is `Crypto`. With bytes from the callback those are handed back, and
/// without a callback none are; in both cases the error stays what the record
/// decodes to. The record is rewritten from the error, unless that is the error
/// of the empty record: then the record is left as it came.
pub fn property_outcome(
    input_present: bool,
    outcome: Option<Result<Vec<u8>, ()>>,
    incoming: CBLError,
) -> (r: (Vec<u8>, CBLError))
    ensures
        r.0@ == spec_property_bytes(input_present, outcome),
        r.1 == spec_property_record(input_present, outcome, incoming),
{
    let decoded = Error::new(&incoming);
    let crypto = Error::cbl_error(CouchbaseLiteError::Crypto);
    let (bytes, error) = if !input_present {
        (Vec::new(), crypto)
    } else {
        match outcome {
            None => (Vec::new(), decoded),
            Some(Ok(v)) => (v, decoded),
            Some(Err(_)) => (Vec::new(), crypto),
        }
    };
    let record = if error != Error::default() {
        error.as_cbl_error()
    } else {
        incoming
    };
    (bytes, record)
}

/// The bytes that `property_outcome` hands back.
pub open spec fn spec_property_bytes(
    input_present: bool,
    outcome: Option<Result<Vec<u8>, ()>>,
) -> Seq<u8> {
    if input_present && (outcome matches Some(Ok(v))) {
        outcome->0->Ok_0@
    } else {
        Seq::empty()
    }
}

/// The error that `property_outcome` arrives at.
pub open spec fn spec_property_error(
    input_present: bool,
    outcome: Option<Result<Vec<u8>, ()>>,
    incoming: CBLError,
) -> Error {
    if !input_present || (outcome matches Some(Err(_))) {
        Error::spec_cbl_error(CouchbaseLiteError::Crypto)
    } else {
        Error::spec_new(incoming)
    }
}

/// The error record that `property_outcome` leaves.
pub open spec fn spec_property_record(
    input_present: bool,
    outcome: Option<Result<Vec<u8>, ()>>,
    incoming: CBLError,
) -> CBLError {
    let error = spec_property_error(input_present, outcome, incoming);
    if error != Error::spec_new(CBLError { domain: 0, code: 0, internal_info: 0 }) {
        error.spec_as_cbl_error()
    } else {
        incoming
    }
}

/// A property that cannot be encrypted or decrypted fails the document with the
/// error `Crypto`: the record that is left decodes to it, whatever record came
/// in. Nothing is handed back in its place.
pub proof fn lemma_failed_property_is_crypto(
    input_present: bool,
    outcome: Option<Result<Vec<u8>, ()>>,
    incoming: CBLError,
)
    requires
        !input_present || (outcome matches Some(Err(_))),
    ensures
        spec_property_bytes(input_present, outcome) == Seq::<u8>::empty(),
        Error::spec_new(spec_property_record(input_present, outcome, incoming)).code
            == ErrorCode::CouchbaseLite(CouchbaseLiteError::Crypto),
{
    crate::error::lemma_error_code_round_trip(ErrorCode::CouchbaseLite(CouchbaseLiteError::Crypto));
}


/// What the replicator knows of one document: the sequence of the local
/// revision that the other side has, and the sequence of the other side's
/// revision that the local side has taken in.
#[derive(Debug)]
pub struct SyncMark {
    pub(crate) id: String,
    pub(crate) local_sequence: u64,
    pub(crate) remote_sequence: u64,
}

/// A replicator: it keeps one database in step with another. It holds its
/// configuration, which does not change, where it stands in its life cycle,
/// and the bookkeeping of its transfers.
#[derive(Debug)]
pub struct Replicator {
    pub(crate) config: ReplicatorConfiguration,
    pub(crate) headers: MutableDict,
    pub(crate) state: Lifecycle,
    pub(crate) marks: Vec<SyncMark>,
    pub(crate) push_checkpoint: u64,
    pub(crate) pull_checkpoint: u64,
    pub(crate) document_count: u64,
}

/// The model of the marks of a replicator.
pub closed spec fn marks_model(s: Seq<SyncMark>) -> Marks {
    Seq::new(
        s.len(),
        |i: int|
            (
                s[i].id@,
                MarkModel {
                    local_sequence: s[i].local_sequence,
                    remote_sequence: s[i].remote_sequence,
                },
            ),
    )
}

/// Finds the first mark of `id`: its position, or the number of marks where
/// there is none.
fn find_mark(marks: &Vec<SyncMark>, id: &str) -> (i: usize)
    ensures
        i == crate::transfer::marks_index(marks_model(marks@), id@),
        i <= marks.len(),
        i < marks.len() ==> marks@[i as int].id@ == id@,
{
    let mut i: usize = 0;
    while i < marks.len()
        invariant
            i <= marks.len(),
            forall|j: int| 0 <= j < i ==> (#[trigger] marks_model(marks@)[j]).0 != id@,
        decreases marks.len() - i,
    {
        if same_text(marks[i].id.as_str(), id) {
            proof {
                assert(marks_model(marks@)[i as int].0 == id@);
                lemma_first_unique(marks_model(marks@), id@, i as int);
            }
            return i;
        }
        assert(marks_model(marks@)[i as int].0 == marks@[i as int].id@);
        i += 1;
    }
    proof {
        lemma_first_unique(marks_model(marks@), id@, i as int);
    }
    i
}

/// True when `ids` names no id at all, or names `id`.
fn allowed(ids: &MutableArray, id: &str) -> (r: bool)
    ensures
        r == id_allowed(ids.spec_items(), id@),
{
    proof {
        ids.lemma_view_is_array();
    }
    if ids.empty() {
        return true;
    }
    let n = ids.count();
    let mut it = ids.iter();
    let ghost all = ids.spec_items();
    loop
        invariant
            it.items() == all,
            all == ids.spec_items(),
            all.len() > 0,
            it.position() <= all.len(),
            forall|k: int| 0 <= k < it.position() ==> #[trigger] all[k] != ValueModel::String(id@),
        ensures
            it.position() == all.len(),
        decreases all.len() - it.position(),
    {
        proof {
            it.lemma_bounds();
        }
        let ghost pos = it.position() as int;
        match it.next() {
            Some(v) => {
                match v.as_string() {
                    Some(text) => {
                        if same_text(text, id) {
                            assert(all[pos] == ValueModel::String(id@));
                            return true;
                        }
                        assert(all[pos] != ValueModel::String(id@));
                    },
                    None => {
                        assert(all[pos] != ValueModel::String(id@));
                    },
                }
            },
            None => {
                break ;
            },
        }
    }
    false
}

impl Replicator {
    /// Where the replicator stands in its life cycle.
    pub closed spec fn spec_lifecycle(&self) -> Lifecycle {
        self.state
    }

    /// The configuration.
    pub closed spec fn spec_config(&self) -> ReplicatorConfiguration {
        self.config
    }

    /// The headers of the configuration, as a dictionary.
    pub closed spec fn spec_headers(&self) -> MutableDict {
        self.headers
    }

    /// The bookkeeping of the transfers.
    pub closed spec fn spec_transfer(&self) -> TransferModel {
        TransferModel {
            marks: marks_model(self.marks@),
            push_checkpoint: self.push_checkpoint,
            pull_checkpoint: self.pull_checkpoint,
            document_count: self.document_count,
        }
    }

    /// The ids to which the configuration limits replication; none for no
    /// limit.
    pub open spec fn spec_ids(&self) -> Seq<ValueModel> {
        self.spec_config().document_ids.spec_items()
    }

    /// The validity of the replicator: that of its life cycle under the policy
    /// of its configuration.
    pub open spec fn wf(&self) -> bool {
        self.spec_lifecycle().wf(self.spec_config().spec_policy())
    }

    /// True while documents can move: the replicator is idle or busy, and has
    /// not been asked to stop.
    pub open spec fn spec_is_transferring(&self) -> bool {
        (self.spec_lifecycle().activity == ReplicatorActivityLevel::Idle
            || self.spec_lifecycle().activity == ReplicatorActivityLevel::Busy)
            && !self.spec_lifecycle().stopping
    }

    /// A replicator with the given configuration. It is stopped, and has
    /// transferred nothing.
    pub fn new(config: ReplicatorConfiguration) -> (r: Result<Replicator, Error>)
        ensures
            r matches Ok(repl) && repl.spec_config() == config && repl.spec_lifecycle()
                == Lifecycle::spec_new() && repl.spec_transfer() == (TransferModel {
                marks: Seq::empty(),
                push_checkpoint: 0,
                pull_checkpoint: 0,
                document_count: 0,
            }) && repl.wf() && repl.spec_headers()@ == ValueModel::Dict(
                crate::fleece::entries_put_all(
                    Seq::empty(),
                    crate::fleece_mutable::string_pairs(config.headers@),
                ),
            ),
    {
        let headers = MutableDict::from_hashmap(&config.headers);
        let r = Replicator {
            config,
            headers,
            state: Lifecycle::new(),
            marks: Vec::new(),
            push_checkpoint: 0,
            pull_checkpoint: 0,
            document_count: 0,
        };
        assert(marks_model(r.marks@) =~= Seq::empty());
        Ok(r)
    }

    /// The configuration.
    pub fn config(&self) -> (r: &ReplicatorConfiguration)
        ensures
            *r == self.spec_config(),
    {
        &self.config
    }

    /// The headers of the configuration, as a dictionary.
    pub fn headers(&self) -> (r: &MutableDict)
        ensures
            *r == self.spec_headers(),
    {
        &self.headers
    }

    /// Starts the replicator, which does nothing unless it is stopped. With
    /// `reset_checkpoint` a replicator that starts forgets how far it had
    /// looked, so that every document is looked at again.
    pub fn start(&mut self, reset_checkpoint: bool) -> (action: ReplicatorAction)
        requires
            old(self).wf(),
        ensures
            final(self).wf(),
            final(self).spec_config() == old(self).spec_config(),
            final(self).spec_headers() == old(self).spec_headers(),
            (final(self).spec_lifecycle(), action) == old(self).spec_lifecycle().spec_start(),
            final(self).spec_transfer() == (if reset_checkpoint && old(self).spec_lifecycle().activity == ReplicatorActivityLevel::Stopped {
                TransferModel { push_checkpoint: 0, pull_checkpoint: 0, ..old(self).spec_transfer() }
            } else {
                old(self).spec_transfer()
            }),
    {
        if reset_checkpoint && self.state.activity == ReplicatorActivityLevel::Stopped {
            self.push_checkpoint = 0;
            self.pull_checkpoint = 0;
        }
        let policy = self.config.policy();
        self.state.start(&policy)
    }

    /// Asks the replicator to stop. It counts as active until the transport
    /// reports that the connection is closed.
    pub fn stop(&mut self) -> (action: ReplicatorAction)
        requires
            old(self).wf(),
        ensures
            final(self).wf(),
            final(self).spec_config() == old(self).spec_config(),
            final(self).spec_headers() == old(self).spec_headers(),
            final(self).spec_transfer() == old(self).spec_transfer(),
            (final(self).spec_lifecycle(), action) == old(self).spec_lifecycle().spec_stop(),
    {
        let policy = self.config.policy();
        self.state.stop(&policy)
    }

    /// Tells the replicator whether the other side can be reached.
    pub fn set_host_reachable(&mut self, reachable: bool) -> (action: ReplicatorAction)
        requires
            old(self).wf(),
        ensures
            final(self).wf(),
            final(self).spec_config() == old(self).spec_config(),
            final(self).spec_headers() == old(self).spec_headers(),
            final(self).spec_transfer() == old(self).spec_transfer(),
            (final(self).spec_lifecycle(), action) == old(self).spec_lifecycle().spec_set_host_reachable(reachable),
    {
        let policy = self.config.policy();
        self.state.set_host_reachable(&policy, reachable)
    }

    /// Suspends the replicator, or ends its suspension.
    pub fn set_suspended(&mut self, suspended: bool) -> (action: ReplicatorAction)
        requires
            old(self).wf(),
        ensures
            final(self).wf(),
            final(self).spec_config() == old(self).spec_config(),
            final(self).spec_headers() == old(self).spec_headers(),
            final(self).spec_transfer() == old(self).spec_transfer(),
            (final(self).spec_lifecycle(), action) == old(self).spec_lifecycle().spec_set_suspended(
                suspended,
            ),
    {
        let policy = self.config.policy();
        self.state.set_suspended(&policy, suspended)
    }

    /// Takes in an event of the transport.
    pub fn handle(&mut self, event: ReplicatorEvent) -> (action: ReplicatorAction)
        requires
            old(self).wf(),
        ensures
            final(self).wf(),
            final(self).spec_config() == old(self).spec_config(),
            final(self).spec_headers() == old(self).spec_headers(),
            final(self).spec_transfer() == old(self).spec_transfer(),
            (final(self).spec_lifecycle(), action) == old(self).spec_lifecycle().spec_handle(
                old(self).spec_config().spec_policy(),
                event,
            ),
    {
        let policy = self.config.policy();
        self.state.handle(&policy, event)
    }

    /// The replicator's status now: its state, the number of documents
    /// transferred, and the error that it met last, if any.
    pub fn status(&self) -> (r: ReplicatorStatus)
        ensures
            r.activity == self.spec_lifecycle().activity,
            r.progress.document_count == self.spec_transfer().document_count,
            r.error == (match self.spec_lifecycle().error {
                Some(e) => Err::<(), Error>(e),
                None => Ok::<(), Error>(()),
            }),
    {
        ReplicatorStatus {
            activity: self.state.activity,
            progress: ReplicatorProgress { document_count: self.document_count },
            error: match self.state.error {
                Some(e) => Err(e),
                None => Ok(()),
            },
        }
    }

    /// True while documents can move: the replicator is idle or busy, and has
    /// not been asked to stop.
    pub fn is_transferring(&self) -> (r: bool)
        ensures
            r == self.spec_is_transferring(),
    {
        (self.state.activity == ReplicatorActivityLevel::Idle || self.state.activity
            == ReplicatorActivityLevel::Busy) && !self.state.stopping
    }
}


impl Replicator {
    /// Records that the local revision `local_sequence` of the document `id`
    /// and the other side's revision `remote_sequence` are known to each other.
    fn set_mark(&mut self, id: &str, local_sequence: u64, remote_sequence: u64)
        ensures
            final(self).spec_transfer() == (TransferModel {
                marks: marks_set(
                    old(self).spec_transfer().marks,
                    id@,
                    MarkModel { local_sequence, remote_sequence },
                ),
                ..old(self).spec_transfer()
            }),
            final(self).spec_config() == old(self).spec_config(),
            final(self).spec_headers() == old(self).spec_headers(),
            final(self).spec_lifecycle() == old(self).spec_lifecycle(),
    {
        let ghost before = marks_model(self.marks@);
        let i = find_mark(&self.marks, id);
        let mark = SyncMark { id: id.to_owned(), local_sequence, remote_sequence };
        if i < self.marks.len() {
            self.marks.set(i, mark);
            assert(marks_model(self.marks@) =~= before.update(
                i as int,
                (id@, MarkModel { local_sequence, remote_sequence }),
            ));
        } else {
            self.marks.push(mark);
            assert(marks_model(self.marks@) =~= before.push(
                (id@, MarkModel { local_sequence, remote_sequence }),
            ));
        }
    }

    /// One more document has been transferred.
    fn count_document(&mut self)
        ensures
            final(self).spec_transfer() == (TransferModel {
                document_count: count_up(old(self).spec_transfer().document_count),
                ..old(self).spec_transfer()
            }),
            final(self).spec_config() == old(self).spec_config(),
            final(self).spec_headers() == old(self).spec_headers(),
            final(self).spec_lifecycle() == old(self).spec_lifecycle(),
    {
        if self.document_count < u64::MAX {
            self.document_count = self.document_count + 1;
        }
    }

    /// The sequences that the replicator has marked for the document `id`: of
    /// the local revision that the other side has, and of the other side's
    /// revision that the local side has taken in. 0 stands for "none".
    pub fn mark(&self, id: &str) -> (r: (u64, u64))
        ensures
            r.0 == mark_of(self.spec_transfer().marks, id@).local_sequence,
            r.1 == mark_of(self.spec_transfer().marks, id@).remote_sequence,
    {
        let i = find_mark(&self.marks, id);
        if i < self.marks.len() {
            assert(marks_model(self.marks@)[i as int].1 == (MarkModel {
                local_sequence: self.marks@[i as int].local_sequence,
                remote_sequence: self.marks@[i as int].remote_sequence,
            }));
            (self.marks[i].local_sequence, self.marks[i].remote_sequence)
        } else {
            (0, 0)
        }
    }

    /// The local changes that are still to be pushed, as fresh copies, in the
    /// order in which the store holds them: those after the checkpoint whose
    /// revision the other side does not have, of documents that the
    /// configuration lets be replicated.
    pub fn push_candidates(&self, local: &Database) -> (r: Vec<Change>)
        requires
            local.wf(),
        ensures
            changes_model(r@) == push_candidates(
                store_changes(local@.documents, self.spec_transfer().push_checkpoint),
                self.spec_transfer(),
                self.spec_ids(),
            ),
            forall|k: int| 0 <= k < r@.len() ==> (#[trigger] r@[k]).document.wf(),
    {
        let changes = local.changes_since(self.push_checkpoint);
        let ghost all = changes_model(changes@);
        let ghost t = self.spec_transfer();
        let ghost ids = self.spec_ids();
        let mut out: Vec<Change> = Vec::new();
        let mut i: usize = 0;
        assert(all.subrange(0, 0) =~= Seq::empty());
        assert(changes_model(out@) =~= Seq::empty());
        while i < changes.len()
            invariant
                i <= changes.len(),
                all == changes_model(changes@),
                t == self.spec_transfer(),
                ids == self.spec_ids(),
                changes_model(out@) == push_candidates(all.subrange(0, i as int), t, ids),
                forall|k: int| 0 <= k < changes@.len() ==> (#[trigger] changes@[k]).document.wf(),
                forall|k: int| 0 <= k < out@.len() ==> (#[trigger] out@[k]).document.wf(),
            decreases changes.len() - i,
        {
            proof {
                let next = all.subrange(0, i + 1);
                assert(next.drop_last() =~= all.subrange(0, i as int));
                assert(next.last() == all[i as int]);
            }
            let c = &changes[i];
            let (known, _) = self.mark(c.document.id());
            if c.document.sequence() != known && allowed(&self.config.document_ids, c.document.id()) {
                let ghost before = changes_model(out@);
                out.push(Change { document: c.document.duplicate(), deleted: c.deleted });
                assert(changes_model(out@) =~= before.push(all[i as int]));
            }
            i += 1;
        }
        assert(all.subrange(0, i as int) =~= all);
        out
    }

    /// The changes of the other side that are still to be pulled, as fresh
    /// copies, in the order in which its store holds them: those after the
    /// checkpoint whose revision the local side has not taken in, of documents
    /// that the configuration lets be replicated.
    pub fn pull_candidates(&self, remote: &Database) -> (r: Vec<Change>)
        requires
            remote.wf(),
        ensures
            changes_model(r@) == pull_candidates(
                store_changes(remote@.documents, self.spec_transfer().pull_checkpoint),
                self.spec_transfer(),
                self.spec_ids(),
            ),
            forall|k: int| 0 <= k < r@.len() ==> (#[trigger] r@[k]).document.wf(),
    {
        let changes = remote.changes_since(self.pull_checkpoint);
        let ghost all = changes_model(changes@);
        let ghost t = self.spec_transfer();
        let ghost ids = self.spec_ids();
        let mut out: Vec<Change> = Vec::new();
        let mut i: usize = 0;
        assert(all.subrange(0, 0) =~= Seq::empty());
        assert(changes_model(out@) =~= Seq::empty());
        while i < changes.len()
            invariant
                i <= changes.len(),
                all == changes_model(changes@),
                t == self.spec_transfer(),
                ids == self.spec_ids(),
                changes_model(out@) == pull_candidates(all.subrange(0, i as int), t, ids),
                forall|k: int| 0 <= k < changes@.len() ==> (#[trigger] changes@[k]).document.wf(),
                forall|k: int| 0 <= k < out@.len() ==> (#[trigger] out@[k]).document.wf(),
            decreases changes.len() - i,
        {
            proof {
                let next = all.subrange(0, i + 1);
                assert(next.drop_last() =~= all.subrange(0, i as int));
                assert(next.last() == all[i as int]);
            }
            let c = &changes[i];
            let (_, known) = self.mark(c.document.id());
            if c.document.sequence() != known && allowed(&self.config.document_ids, c.document.id()) {
                let ghost before = changes_model(out@);
                out.push(Change { document: c.document.duplicate(), deleted: c.deleted });
                assert(changes_model(out@) =~= before.push(all[i as int]));
            }
            i += 1;
        }
        assert(all.subrange(0, i as int) =~= all);
        out
    }

    /// The ids of the documents with local changes that are still to be pushed:
    /// a snapshot, which goes out of date as documents are saved and pushed.
    pub fn pending_document_ids(&self, local: &Database) -> (r: Result<Vec<String>, Error>)
        requires
            local.wf(),
        ensures
            r matches Ok(names) && crate::database::texts(names@) == pending_ids(
                local@,
                self.spec_transfer(),
                self.spec_ids(),
            ),
    {
        let candidates = self.push_candidates(local);
        let ghost expected = pending_ids(local@, self.spec_transfer(), self.spec_ids());
        let mut names: Vec<String> = Vec::new();
        let mut i: usize = 0;
        while i < candidates.len()
            invariant
                i <= candidates.len(),
                expected == change_ids(changes_model(candidates@)),
                names@.len() == i,
                forall|k: int| 0 <= k < i ==> (#[trigger] names@[k])@ == expected[k],
            decreases candidates.len() - i,
        {
            names.push(candidates[i].document.id().to_owned());
            i += 1;
        }
        assert(crate::database::texts(names@) =~= expected);
        Ok(names)
    }

    /// True when the document `doc_id` has local changes that are still to be
    /// pushed. This is to ask whether the id is among those of
    /// `pending_document_ids`, without making the list.
    pub fn is_document_pending(&self, local: &Database, doc_id: &str) -> (r: Result<bool, Error>)
        requires
            local.wf(),
        ensures
            r == Ok::<bool, Error>(
                document_pending(local@, self.spec_transfer(), self.spec_ids(), doc_id@),
            ),
            r == Ok::<bool, Error>(
                pending_ids(local@, self.spec_transfer(), self.spec_ids()).contains(doc_id@),
            ),
    {
        proof {
            crate::transfer::lemma_pending_is_membership(
                local@,
                self.spec_transfer(),
                self.spec_ids(),
                doc_id@,
            );
        }
        match local.sequence_of(doc_id) {
            Some(sequence) => {
                let (known, _) = self.mark(doc_id);
                Ok(
                    sequence > self.push_checkpoint && sequence != known && allowed(
                        &self.config.document_ids,
                        doc_id,
                    ),
                )
            },
            None => Ok(false),
        }
    }
}


/// The report of a transferred change.
fn report(change: &Change, error: Result<(), Error>) -> (r: ReplicatedDocument)
    ensures
        r@ == report_of(
            change@,
            match error {
                Ok(_) => None,
                Err(e) => Some(e),
            },
        ),
{
    ReplicatedDocument {
        id: change.document.id().to_owned(),
        flags: document_flags(change.deleted, false),
        error,
    }
}

impl Replicator {
    /// Pushes one change to the other side's database, and reports on it; see
    /// `push_one`.
    pub fn apply_push(&mut self, change: &Change, remote: &mut Database) -> (r: ReplicatedDocument)
        requires
            old(remote).wf(),
            change.document.wf(),
        ensures
            final(remote).wf(),
            final(remote).spec_name() == old(remote).spec_name(),
            final(remote).spec_index_names() == old(remote).spec_index_names(),
            (final(self).spec_transfer(), final(remote)@, r@) == push_one(
                old(self).spec_transfer(),
                old(remote)@,
                change@,
            ),
            final(self).spec_config() == old(self).spec_config(),
            final(self).spec_headers() == old(self).spec_headers(),
            final(self).spec_lifecycle() == old(self).spec_lifecycle(),
    {
        let id = change.document.id();
        let (_, seen) = self.mark(id);
        let moved = match remote.sequence_of(id) {
            Some(sequence) => sequence != seen,
            None => false,
        };
        if moved {
            return report(change, Err(Error::cbl_error(CouchbaseLiteError::Conflict)));
        }
        let properties = change.document.properties().mutable_copy();
        proof {
            properties.lemma_view_is_dict();
        }
        match remote.store_revision(id, change.deleted, &properties) {
            Err(e) => report(change, Err(e)),
            Ok(sequence) => {
                self.set_mark(id, change.document.sequence(), sequence);
                self.count_document();
                report(change, Ok(()))
            },
        }
    }

    /// True when the local database holds a revision of the changed document
    /// that the other side does not have, so that taking the change in would
    /// lose it.
    pub fn is_pull_conflict(&self, local: &Database, change: &Change) -> (r: bool)
        requires
            local.wf(),
        ensures
            r == target_moved(
                local@,
                change@.document.id,
                mark_of(self.spec_transfer().marks, change@.document.id).local_sequence,
            ),
    {
        let id = change.document.id();
        let (known, _) = self.mark(id);
        match local.sequence_of(id) {
            Some(sequence) => sequence != known,
            None => false,
        }
    }

    /// Takes one change of the other side into the local database, and reports
    /// on it. Where the local database holds a revision of its own that the
    /// other side does not have, nothing is taken in, and the document is
    /// reported with the error `Conflict`; see `pull_unsettled`. Else see
    /// `pull_one`.
    pub fn apply_pull(&mut self, change: &Change, local: &mut Database) -> (r: ReplicatedDocument)
        requires
            old(local).wf(),
            change.document.wf(),
        ensures
            final(local).wf(),
            final(local).spec_name() == old(local).spec_name(),
            final(local).spec_index_names() == old(local).spec_index_names(),
            (final(self).spec_transfer(), final(local)@, r@) == (if target_moved(
                old(local)@,
                change@.document.id,
                mark_of(old(self).spec_transfer().marks, change@.document.id).local_sequence,
            ) {
                pull_unsettled(old(self).spec_transfer(), old(local)@, change@)
            } else {
                pull_one(old(self).spec_transfer(), old(local)@, change@)
            }),
            final(self).spec_config() == old(self).spec_config(),
            final(self).spec_headers() == old(self).spec_headers(),
            final(self).spec_lifecycle() == old(self).spec_lifecycle(),
    {
        if self.is_pull_conflict(local, change) {
            return report(change, Err(Error::cbl_error(CouchbaseLiteError::Conflict)));
        }
        let id = change.document.id();
        let properties = change.document.properties().mutable_copy();
        proof {
            properties.lemma_view_is_dict();
        }
        match local.store_revision(id, change.deleted, &properties) {
            Err(e) => report(change, Err(e)),
            Ok(sequence) => {
                self.set_mark(id, sequence, change.document.sequence());
                self.count_document();
                report(change, Ok(()))
            },
        }
    }

    /// Settles a conflict with what the resolver made of it: `resolved` becomes
    /// the local database's latest revision of the changed document, and `None`
    /// makes a tombstone of it; see `pull_settled`.
    pub fn apply_resolution(
        &mut self,
        change: &Change,
        resolved: Option<&Document>,
        local: &mut Database,
    ) -> (r: ReplicatedDocument)
        requires
            old(local).wf(),
            resolved matches Some(d) ==> d.wf(),
        ensures
            final(local).wf(),
            final(local).spec_name() == old(local).spec_name(),
            final(local).spec_index_names() == old(local).spec_index_names(),
            (final(self).spec_transfer(), final(local)@, r@) == pull_settled(
                old(self).spec_transfer(),
                old(local)@,
                change@,
                match resolved {
                    Some(d) => Some(d@.properties),
                    None => None,
                },
            ),
            final(self).spec_config() == old(self).spec_config(),
            final(self).spec_headers() == old(self).spec_headers(),
            final(self).spec_lifecycle() == old(self).spec_lifecycle(),
    {
        let id = change.document.id();
        let stored = match resolved {
            Some(d) => {
                let properties = d.properties().mutable_copy();
                proof {
                    properties.lemma_view_is_dict();
                }
                local.store_revision(id, false, &properties)
            },
            None => {
                let properties = MutableDict::new();
                proof {
                    properties.lemma_view_is_dict();
                }
                local.store_revision(id, true, &properties)
            },
        };
        match stored {
            Err(e) => report(change, Err(e)),
            Ok(_) => {
                self.set_mark(id, 0, change.document.sequence());
                self.count_document();
                report(change, Ok(()))
            },
        }
    }

    /// Moves the checkpoint for pushing up to the latest local change: every
    /// change up to it has been looked at.
    pub fn finish_push(&mut self, local: &Database)
        ensures
            final(self).spec_transfer() == (TransferModel {
                push_checkpoint: local@.last_sequence,
                ..old(self).spec_transfer()
            }),
            final(self).spec_config() == old(self).spec_config(),
            final(self).spec_headers() == old(self).spec_headers(),
            final(self).spec_lifecycle() == old(self).spec_lifecycle(),
    {
        self.push_checkpoint = local.last_sequence();
    }

    /// Moves the checkpoint for pulling up to the other side's latest change:
    /// every change up to it has been looked at.
    pub fn finish_pull(&mut self, remote: &Database)
        ensures
            final(self).spec_transfer() == (TransferModel {
                pull_checkpoint: remote@.last_sequence,
                ..old(self).spec_transfer()
            }),
            final(self).spec_config() == old(self).spec_config(),
            final(self).spec_headers() == old(self).spec_headers(),
            final(self).spec_lifecycle() == old(self).spec_lifecycle(),
    {
        self.pull_checkpoint = remote.last_sequence();
    }

    /// Deals with the news that the user has lost access to the document
    /// `doc_id`. Unless the configuration disables it, the document is purged
    /// from the local database, if it is there. The result is the report for
    /// the listeners, with the flag "access removed".
    pub fn access_removed(&self, doc_id: &str, local: &mut Database) -> (r: ReplicatedDocument)
        requires
            old(local).wf(),
        ensures
            final(local).wf(),
            final(local).spec_name() == old(local).spec_name(),
            final(local).spec_index_names() == old(local).spec_index_names(),
            r@ == (ReplicatedModel { id: doc_id@, flags: ACCESS_REMOVED, error: None }),
            !self.spec_config().disable_auto_purge && store_has(old(local)@.documents, doc_id@)
                ==> final(local)@ == crate::database::after_purge(old(local)@, doc_id@),
            self.spec_config().disable_auto_purge || !store_has(old(local)@.documents, doc_id@)
                ==> final(local)@ == old(local)@,
    {
        if !self.config.disable_auto_purge {
            let _ = local.purge_document_by_id(doc_id);
        }
        ReplicatedDocument { id: doc_id.to_owned(), flags: document_flags(false, true), error: Ok(()) }
    }
}


/// The models of a sequence of reports.
pub open spec fn reports_model(s: Seq<ReplicatedDocument>) -> Seq<ReplicatedModel> {
    Seq::new(s.len(), |i: int| s[i]@)
}

/// True when `verdict` is what the filter says of the change: the filter's
/// answer for the changed document, whether it was deleted, and "access not
/// removed"; and without a filter, `true`.
pub open spec fn filter_allows<F: Fn(&Document, bool, bool) -> bool>(
    filter: Option<F>,
    c: ChangeModel,
    verdict: bool,
) -> bool {
    match filter {
        None => verdict,
        Some(f) => exists|d: Document|
            d@ == c.document && #[trigger] call_ensures(f, (&d, c.deleted, false), verdict),
    }
}

/// Asks the filter about one change.
fn ask_filter<F: Fn(&Document, bool, bool) -> bool>(filter: &Option<F>, change: &Change) -> (verdict:
    bool)
    requires
        filter matches Some(f) ==> forall|d: &Document, deleted: bool, removed: bool|
            d.wf() ==> call_requires(f, (d, deleted, removed)),
        change.document.wf(),
    ensures
        filter_allows(*filter, change@, verdict),
{
    match filter {
        Some(f) => {
            let verdict = f(&change.document, change.deleted, false);
            assert(call_ensures(*f, (&change.document, change.deleted, false), verdict));
            verdict
        },
        None => true,
    }
}

impl Replicator {
    /// The local changes that are still to be pushed, in the order in which the
    /// store holds them.
    pub open spec fn spec_push_candidates(&self, local: crate::database::DatabaseModel) -> Seq<
        ChangeModel,
    > {
        push_candidates(
            store_changes(local.documents, self.spec_transfer().push_checkpoint),
            self.spec_transfer(),
            self.spec_ids(),
        )
    }

    /// The changes of the other side that are still to be pulled, in the order
    /// in which its store holds them.
    pub open spec fn spec_pull_candidates(&self, remote: crate::database::DatabaseModel) -> Seq<
        ChangeModel,
    > {
        pull_candidates(
            store_changes(remote.documents, self.spec_transfer().pull_checkpoint),
            self.spec_transfer(),
            self.spec_ids(),
        )
    }

    /// A round of pushing. Nothing happens unless the replicator is
    /// transferring and its configuration has it push. Else every local change
    /// that is still to be pushed is shown to the filter, once and in the order
    /// in which the store holds the changes; what the filter lets pass is
    /// pushed to `remote`. Then the checkpoint moves up to the latest local
    /// change. The reports of the documents that were pushed, or failed to be,
    /// are returned in that order.
    pub fn push<F: Fn(&Document, bool, bool) -> bool>(
        &mut self,
        filter: &Option<F>,
        local: &Database,
        remote: &mut Database,
    ) -> (r: Vec<ReplicatedDocument>)
        requires
            old(self).wf(),
            local.wf(),
            old(remote).wf(),
            filter matches Some(f) ==> forall|d: &Document, deleted: bool, removed: bool|
                d.wf() ==> call_requires(f, (d, deleted, removed)),
        ensures
            final(self).wf(),
            final(remote).wf(),
            final(remote).spec_name() == old(remote).spec_name(),
            final(remote).spec_index_names() == old(remote).spec_index_names(),
            final(self).spec_config() == old(self).spec_config(),
            final(self).spec_headers() == old(self).spec_headers(),
            final(self).spec_lifecycle() == old(self).spec_lifecycle(),
            !(old(self).spec_is_transferring() && old(self).spec_config().replicator_type
                != ReplicatorType::Pull) ==> {
                &&& r@.len() == 0
                &&& final(self).spec_transfer() == old(self).spec_transfer()
                &&& final(remote)@ == old(remote)@
            },
            old(self).spec_is_transferring() && old(self).spec_config().replicator_type
                != ReplicatorType::Pull ==> exists|verdicts: Seq<bool>|
                #![trigger push_all(old(self).spec_transfer(), old(remote)@, old(self).spec_push_candidates(local@), verdicts)]
                {
                    &&& verdicts.len() == old(self).spec_push_candidates(local@).len()
                    &&& forall|k: int|
                        0 <= k < verdicts.len() ==> filter_allows(
                            *filter,
                            old(self).spec_push_candidates(local@)[k],
                            #[trigger] verdicts[k],
                        )
                    &&& final(self).spec_transfer() == (TransferModel {
                        push_checkpoint: local@.last_sequence,
                        ..push_all(
                            old(self).spec_transfer(),
                            old(remote)@,
                            old(self).spec_push_candidates(local@),
                            verdicts,
                        ).0
                    })
                    &&& final(remote)@ == push_all(
                        old(self).spec_transfer(),
                        old(remote)@,
                        old(self).spec_push_candidates(local@),
                        verdicts,
                    ).1
                    &&& reports_model(r@) == push_all(
                        old(self).spec_transfer(),
                        old(remote)@,
                        old(self).spec_push_candidates(local@),
                        verdicts,
                    ).2
                },
    {
        let mut log: Vec<ReplicatedDocument> = Vec::new();
        if !(self.is_transferring() && self.config.replicator_type.pushes()) {
            return log;
        }
        let candidates = self.push_candidates(local);
        let ghost all = changes_model(candidates@);
        let ghost t0 = self.spec_transfer();
        let ghost r0 = remote@;
        let ghost mut verdicts: Seq<bool> = Seq::empty();
        let mut i: usize = 0;
        proof {
            assert(all.subrange(0, 0) =~= Seq::empty());
            assert(reports_model(log@) =~= Seq::empty());
        }
        while i < candidates.len()
            invariant
                i <= candidates.len(),
                all == changes_model(candidates@),
                forall|k: int|
                    0 <= k < candidates@.len() ==> (#[trigger] candidates@[k]).document.wf(),
                filter matches Some(f) ==> forall|d: &Document, deleted: bool, removed: bool|
                    d.wf() ==> call_requires(f, (d, deleted, removed)),
                remote.wf(),
                remote.spec_name() == old(remote).spec_name(),
                remote.spec_index_names() == old(remote).spec_index_names(),
                self.spec_config() == old(self).spec_config(),
                self.spec_headers() == old(self).spec_headers(),
                self.spec_lifecycle() == old(self).spec_lifecycle(),
                verdicts.len() == i,
                forall|k: int| 0 <= k < i ==> filter_allows(*filter, all[k], #[trigger] verdicts[k]),
                (self.spec_transfer(), remote@, reports_model(log@)) == push_all(
                    t0,
                    r0,
                    all.subrange(0, i as int),
                    verdicts,
                ),
            decreases candidates.len() - i,
        {
            let change = &candidates[i];
            let verdict = ask_filter(filter, change);
            let ghost before_log = reports_model(log@);
            let ghost before_verdicts = verdicts;
            if verdict {
                let entry = self.apply_push(change, remote);
                log.push(entry);
                assert(reports_model(log@) =~= before_log.push(entry@));
            }
            proof {
                verdicts = verdicts.push(verdict);
                let next = all.subrange(0, i + 1);
                assert(next.drop_last() =~= all.subrange(0, i as int));
                assert(next.last() == all[i as int]);
                assert(verdicts.drop_last() =~= before_verdicts);
                assert(all[i as int] == change@);
            }
            i += 1;
        }
        proof {
            assert(all.subrange(0, i as int) =~= all);
        }
        self.finish_push(local);
        proof {
            let done = push_all(
                old(self).spec_transfer(),
                old(remote)@,
                old(self).spec_push_candidates(local@),
                verdicts,
            );
            assert(all == old(self).spec_push_candidates(local@));
            assert(verdicts.len() == all.len());
            assert(self.spec_transfer() == (TransferModel {
                push_checkpoint: local@.last_sequence,
                ..done.0
            }));
            assert(remote@ == done.1);
            assert(reports_model(log@) == done.2);
        }
        log
    }
}


/// True when `answer` is what the resolver makes of a conflict over the change
/// `c`: without a resolver there is no answer; with one, the answer is what it
/// returns for the document's id, the local document as the store holds it,
/// and the other side's document, where a tombstone counts as no document.
pub open spec fn resolver_answers<CR: Fn(&str, Option<Document>, Option<Document>) -> Option<Document>>(
    resolver: Option<CR>,
    local: DatabaseModel,
    c: ChangeModel,
    answer: Answer,
) -> bool {
    match resolver {
        None => answer is None,
        Some(r) => resolver_call(r, local, c, answer),
    }
}

/// True when `answer` is what the resolver `r` returns for a conflict over the
/// change `c`.
pub open spec fn resolver_call<CR: Fn(&str, Option<Document>, Option<Document>) -> Option<Document>>(
    r: CR,
    local: DatabaseModel,
    c: ChangeModel,
    answer: Answer,
) -> bool {
    exists|id: &str, mine: Option<Document>, theirs: Option<Document>, out: Option<Document>|
        {
            &&& id@ == c.document.id
            &&& store_get(local.documents, c.document.id).deleted ==> mine is None
            &&& !store_get(local.documents, c.document.id).deleted ==> (mine matches Some(d)
                && d@ == stored_document(local, c.document.id))
            &&& c.deleted ==> theirs is None
            &&& !c.deleted ==> (theirs matches Some(d) && d@ == c.document)
            &&& #[trigger] call_ensures(r, (id, mine, theirs), out)
            &&& answer == Some(settled_by(out))
        }
}

/// What the resolver's result settles a conflict with: the properties of the
/// document that it returned, or `None` for "no document".
pub open spec fn settled_by(out: Option<Document>) -> Option<crate::fleece::Entries> {
    match out {
        Some(d) => Some(d@.properties),
        None => None,
    }
}

/// The state of a round of pulling before its candidate `k`.
pub open spec fn pull_before(
    t: TransferModel,
    local: DatabaseModel,
    candidates: Seq<ChangeModel>,
    verdicts: Seq<bool>,
    answers: Seq<Answer>,
    k: int,
) -> (TransferModel, DatabaseModel, Seq<ReplicatedModel>) {
    pull_all(
        t,
        local,
        candidates.subrange(0, k),
        verdicts.subrange(0, k),
        answers.subrange(0, k),
    )
}

/// True when candidate `k` of a round of pulling passes the filter and meets a
/// conflict: the local database, as the round has left it so far, holds a
/// revision of the document that the other side does not have.
pub open spec fn pull_meets_conflict(
    t: TransferModel,
    local: DatabaseModel,
    candidates: Seq<ChangeModel>,
    verdicts: Seq<bool>,
    answers: Seq<Answer>,
    k: int,
) -> bool {
    let before = pull_before(t, local, candidates, verdicts, answers, k);
    verdicts[k] && target_moved(
        before.1,
        candidates[k].document.id,
        mark_of(before.0.marks, candidates[k].document.id).local_sequence,
    )
}

/// True when `verdicts` and `answers` are what the filter and the resolver say
/// in a round of pulling: one verdict for each candidate, and for each
/// candidate that passes the filter and meets a conflict, the resolver's
/// answer.
pub open spec fn pull_inputs<
    F: Fn(&Document, bool, bool) -> bool,
    CR: Fn(&str, Option<Document>, Option<Document>) -> Option<Document>,
>(
    filter: Option<F>,
    resolver: Option<CR>,
    t: TransferModel,
    local: DatabaseModel,
    candidates: Seq<ChangeModel>,
    verdicts: Seq<bool>,
    answers: Seq<Answer>,
) -> bool {
    &&& verdicts.len() == candidates.len()
    &&& answers.len() == candidates.len()
    &&& forall|k: int|
        0 <= k < candidates.len() ==> filter_allows(filter, candidates[k], #[trigger] verdicts[k])
    &&& forall|k: int|
        0 <= k < candidates.len() && #[trigger] pull_meets_conflict(
            t,
            local,
            candidates,
            verdicts,
            answers,
            k,
        ) ==> resolver_answers(
            resolver,
            pull_before(t, local, candidates, verdicts, answers, k).1,
            candidates[k],
            answers[k],
        )
}

/// Asks the resolver about one conflict.
fn ask_resolver<CR: Fn(&str, Option<Document>, Option<Document>) -> Option<Document>>(
    resolver: &CR,
    change: &Change,
    local: &Database,
) -> (out: Option<Document>)
    requires
        local.wf(),
        change.document.wf(),
        store_has(local@.documents, change@.document.id),
        forall|id: &str, mine: Option<Document>, theirs: Option<Document>|
            (mine matches Some(d) ==> d.wf()) && (theirs matches Some(d) ==> d.wf())
                ==> call_requires(*resolver, (id, mine, theirs)),
        forall|id: &str, mine: Option<Document>, theirs: Option<Document>, out: Option<Document>|
            call_ensures(*resolver, (id, mine, theirs), out) ==> (out matches Some(d) ==> d.wf()),
    ensures
        out matches Some(d) ==> d.wf(),
        resolver_answers(Some(*resolver), local@, change@, Some(settled_by(out))),
{
    let id = change.document.id();
    let mine = if local.is_tombstone(id) {
        None
    } else {
        match local.get_document(id) {
            Ok(d) => Some(d),
            Err(_) => None,
        }
    };
    let theirs = if change.deleted {
        None
    } else {
        Some(change.document.duplicate())
    };
    let ghost mine0 = mine;
    let ghost theirs0 = theirs;
    let out = resolver(id, mine, theirs);
    proof {
        assert(call_ensures(*resolver, (id, mine0, theirs0), out));
        assert(resolver_call(*resolver, local@, change@, Some(settled_by(out))));
    }
    out
}

impl Replicator {
    /// A round of pulling. Nothing happens unless the replicator is
    /// transferring and its configuration has it pull. Else every change of the
    /// other side that is still to be pulled is shown to the filter, once and
    /// in the order in which that side's store holds the changes. What the
    /// filter lets pass is taken into `local`; where the local database holds a
    /// revision of its own in the way, the resolver is asked, and what it
    /// answers becomes the local revision; without a resolver such a conflict
    /// stays unsettled. Then the checkpoint moves up to the other side's latest
    /// change. The reports of the documents that were pulled, or failed to be,
    /// are returned in that order.
    pub fn pull<
        F: Fn(&Document, bool, bool) -> bool,
        CR: Fn(&str, Option<Document>, Option<Document>) -> Option<Document>,
    >(
        &mut self,
        filter: &Option<F>,
        resolver: &Option<CR>,
        local: &mut Database,
        remote: &Database,
    ) -> (r: Vec<ReplicatedDocument>)
        requires
            old(self).wf(),
            old(local).wf(),
            remote.wf(),
            filter matches Some(f) ==> forall|d: &Document, deleted: bool, removed: bool|
                d.wf() ==> call_requires(f, (d, deleted, removed)),
            resolver matches Some(res) ==> forall|
                id: &str,
                mine: Option<Document>,
                theirs: Option<Document>,
            |
                (mine matches Some(d) ==> d.wf()) && (theirs matches Some(d) ==> d.wf())
                    ==> call_requires(res, (id, mine, theirs)),
            resolver matches Some(res) ==> forall|
                id: &str,
                mine: Option<Document>,
                theirs: Option<Document>,
                out: Option<Document>,
            |
                call_ensures(res, (id, mine, theirs), out) ==> (out matches Some(d) ==> d.wf()),
        ensures
            final(self).wf(),
            final(local).wf(),
            final(local).spec_name() == old(local).spec_name(),
            final(local).spec_index_names() == old(local).spec_index_names(),
            final(self).spec_config() == old(self).spec_config(),
            final(self).spec_headers() == old(self).spec_headers(),
            final(self).spec_lifecycle() == old(self).spec_lifecycle(),
            !(old(self).spec_is_transferring() && old(self).spec_config().replicator_type
                != ReplicatorType::Push) ==> {
                &&& r@.len() == 0
                &&& final(self).spec_transfer() == old(self).spec_transfer()
                &&& final(local)@ == old(local)@
            },
            old(self).spec_is_transferring() && old(self).spec_config().replicator_type
                != ReplicatorType::Push ==> exists|verdicts: Seq<bool>, answers: Seq<Answer>|
                #![trigger pull_all(old(self).spec_transfer(), old(local)@, old(self).spec_pull_candidates(remote@), verdicts, answers)]
                {
                    &&& pull_inputs(
                        *filter,
                        *resolver,
                        old(self).spec_transfer(),
                        old(local)@,
                        old(self).spec_pull_candidates(remote@),
                        verdicts,
                        answers,
                    )
                    &&& final(self).spec_transfer() == (TransferModel {
                        pull_checkpoint: remote@.last_sequence,
                        ..pull_all(
                            old(self).spec_transfer(),
                            old(local)@,
                            old(self).spec_pull_candidates(remote@),
                            verdicts,
                            answers,
                        ).0
                    })
                    &&& final(local)@ == pull_all(
                        old(self).spec_transfer(),
                        old(local)@,
                        old(self).spec_pull_candidates(remote@),
                        verdicts,
                        answers,
                    ).1
                    &&& reports_model(r@) == pull_all(
                        old(self).spec_transfer(),
                        old(local)@,
                        old(self).spec_pull_candidates(remote@),
                        verdicts,
                        answers,
                    ).2
                },
    {
        let mut log: Vec<ReplicatedDocument> = Vec::new();
        if !(self.is_transferring() && self.config.replicator_type.pulls()) {
            return log;
        }
        let candidates = self.pull_candidates(remote);
        let ghost all = changes_model(candidates@);
        let ghost t0 = self.spec_transfer();
        let ghost l0 = local@;
        let ghost mut verdicts: Seq<bool> = Seq::empty();
        let ghost mut answers: Seq<Answer> = Seq::empty();
        let mut i: usize = 0;
        proof {
            assert(all.subrange(0, 0) =~= Seq::empty());
            assert(reports_model(log@) =~= Seq::empty());
        }
        while i < candidates.len()
            invariant
                i <= candidates.len(),
                all == changes_model(candidates@),
                forall|k: int|
                    0 <= k < candidates@.len() ==> (#[trigger] candidates@[k]).document.wf(),
                filter matches Some(f) ==> forall|d: &Document, deleted: bool, removed: bool|
                    d.wf() ==> call_requires(f, (d, deleted, removed)),
                resolver matches Some(res) ==> forall|
                    id: &str,
                    mine: Option<Document>,
                    theirs: Option<Document>,
                |
                    (mine matches Some(d) ==> d.wf()) && (theirs matches Some(d) ==> d.wf())
                        ==> call_requires(res, (id, mine, theirs)),
                resolver matches Some(res) ==> forall|
                    id: &str,
                    mine: Option<Document>,
                    theirs: Option<Document>,
                    out: Option<Document>,
                |
                    call_ensures(res, (id, mine, theirs), out) ==> (out matches Some(d) ==> d.wf()),
                local.wf(),
                local.spec_name() == old(local).spec_name(),
                local.spec_index_names() == old(local).spec_index_names(),
                self.spec_config() == old(self).spec_config(),
                self.spec_headers() == old(self).spec_headers(),
                self.spec_lifecycle() == old(self).spec_lifecycle(),
                verdicts.len() == i,
                answers.len() == i,
                pull_inputs(*filter, *resolver, t0, l0, all.subrange(0, i as int), verdicts, answers),
                (self.spec_transfer(), local@, reports_model(log@)) == pull_all(
                    t0,
                    l0,
                    all.subrange(0, i as int),
                    verdicts,
                    answers,
                ),
            decreases candidates.len() - i,
        {
            let change = &candidates[i];
            let verdict = ask_filter(filter, change);
            let ghost before_log = reports_model(log@);
            let ghost before_verdicts = verdicts;
            let ghost before_answers = answers;
            let ghost before_t = self.spec_transfer();
            let ghost before_local = local@;
            let ghost mut answer: Answer = None;
            if verdict {
                let conflict = self.is_pull_conflict(local, change);
                let entry = match resolver {
                    Some(res) => {
                        if conflict {
                            let out = ask_resolver(res, change, local);
                            proof {
                                answer = Some(settled_by(out));
                            }
                            self.apply_resolution(change, out.as_ref(), local)
                        } else {
                            self.apply_pull(change, local)
                        }
                    },
                    None => self.apply_pull(change, local),
                };
                log.push(entry);
                assert(reports_model(log@) =~= before_log.push(entry@));
            }
            proof {
                verdicts = verdicts.push(verdict);
                answers = answers.push(answer);
                let prefix = all.subrange(0, i as int);
                let next = all.subrange(0, i + 1);
                assert(next.drop_last() =~= prefix);
                assert(next.last() == all[i as int]);
                assert(verdicts.drop_last() =~= before_verdicts);
                assert(answers.drop_last() =~= before_answers);
                assert(all[i as int] == change@);
                assert forall|k: int| 0 <= k < next.len() implies filter_allows(
                    *filter,
                    next[k],
                    #[trigger] verdicts[k],
                ) by {
                    if k < i {
                        assert(next[k] == prefix[k]);
                        assert(verdicts[k] == before_verdicts[k]);
                    }
                }
                assert forall|k: int|
                    0 <= k < next.len() && #[trigger] pull_meets_conflict(
                        t0,
                        l0,
                        next,
                        verdicts,
                        answers,
                        k,
                    ) implies resolver_answers(
                    *resolver,
                    pull_before(t0, l0, next, verdicts, answers, k).1,
                    next[k],
                    answers[k],
                ) by {
                    assert(next.subrange(0, k) =~= prefix.subrange(0, k));
                    assert(verdicts.subrange(0, k) =~= before_verdicts.subrange(0, k));
                    assert(answers.subrange(0, k) =~= before_answers.subrange(0, k));
                    if k < i {
                        assert(next[k] == prefix[k]);
                        assert(verdicts[k] == before_verdicts[k]);
                        assert(answers[k] == before_answers[k]);
                        assert(pull_meets_conflict(
                            t0,
                            l0,
                            prefix,
                            before_verdicts,
                            before_answers,
                            k,
                        ));
                    } else {
                        assert(prefix.subrange(0, k) =~= prefix);
                        assert(before_verdicts.subrange(0, k) =~= before_verdicts);
                        assert(before_answers.subrange(0, k) =~= before_answers);
                    }
                }
            }
            i += 1;
        }
        proof {
            assert(all.subrange(0, i as int) =~= all);
        }
        self.finish_pull(remote);
        proof {
            let done = pull_all(
                old(self).spec_transfer(),
                old(local)@,
                old(self).spec_pull_candidates(remote@),
                verdicts,
                answers,
            );
            assert(all == old(self).spec_pull_candidates(remote@));
            assert(self.spec_transfer() == (TransferModel {
                pull_checkpoint: remote@.last_sequence,
                ..done.0
            }));
            assert(local@ == done.1);
            assert(reports_model(log@) == done.2);
        }
        log
    }
}


impl<PF, LF, CR, EN, DE> ReplicationConfigurationContext<PF, LF, CR, EN, DE> {
    /// The callbacks of a replicator that has none.
    pub fn new() -> (r: Self)
        ensures
            r.push_filter is None,
            r.pull_filter is None,
            r.conflict_resolver is None,
            r.property_encryptor is None,
            r.property_decryptor is None,
    {
        ReplicationConfigurationContext {
            push_filter: None,
            pull_filter: None,
            conflict_resolver: None,
            property_encryptor: None,
            property_decryptor: None,
        }
    }
}

impl<PF, LF, CR, EN, DE> Default for ReplicationConfigurationContext<PF, LF, CR, EN, DE> {
    fn default() -> (r: Self)
        ensures
            r.push_filter is None,
            r.pull_filter is None,
            r.conflict_resolver is None,
            r.property_encryptor is None,
            r.property_decryptor is None,
    {
        Self::new()
    }
}

/// One replicated document as the engine hands it over: the id, which is
/// missing where it is no valid text, the flags, and an error record.
#[derive(Debug)]
pub struct RawReplicatedDocument {
    pub id: Option<String>,
    pub flags: u32,
    pub error: CBLError,
}

/// The report that `replicated_document` makes of a raw one, as mathematics.
pub open spec fn raw_report(raw: RawReplicatedDocument) -> ReplicatedModel {
    ReplicatedModel {
        id: raw.id->0@,
        flags: raw.flags,
        error: if raw.error.domain == 0 || raw.error.code == 0 {
            None
        } else {
            Some(Error::spec_new(raw.error))
        },
    }
}

/// The reports of those of `raw` that have an id, in their order.
pub open spec fn raw_reports(raw: Seq<RawReplicatedDocument>) -> Seq<ReplicatedModel>
    decreases raw.len(),
{
    if raw.len() == 0 {
        Seq::empty()
    } else if raw.last().id is Some {
        raw_reports(raw.drop_last()).push(raw_report(raw.last()))
    } else {
        raw_reports(raw.drop_last())
    }
}

/// What the listeners are told of a batch of replicated documents: the
/// direction, and a report for each document that has an id, in the order of
/// the batch. A document without an id is left out.
pub fn replicated_documents(is_push: bool, documents: &Vec<RawReplicatedDocument>) -> (r: (
    Direction,
    Vec<ReplicatedDocument>,
))
    ensures
        r.0 == (if is_push {
            Direction::Pushed
        } else {
            Direction::Pulled
        }),
        reports_model(r.1@) == raw_reports(documents@),
{
    let mut out: Vec<ReplicatedDocument> = Vec::new();
    let mut i: usize = 0;
    assert(documents@.subrange(0, 0) =~= Seq::empty());
    assert(reports_model(out@) =~= Seq::empty());
    while i < documents.len()
        invariant
            i <= documents.len(),
            reports_model(out@) == raw_reports(documents@.subrange(0, i as int)),
        decreases documents.len() - i,
    {
        proof {
            let next = documents@.subrange(0, i + 1);
            assert(next.drop_last() =~= documents@.subrange(0, i as int));
            assert(next.last() == documents@[i as int]);
        }
        let raw = &documents[i];
        match &raw.id {
            Some(text) => {
                let ghost before = reports_model(out@);
                let entry = ReplicatedDocument {
                    id: text.clone(),
                    flags: raw.flags,
                    error: crate::error::check_error(&raw.error),
                };
                out.push(entry);
                assert(reports_model(out@) =~= before.push(raw_report(*raw)));
            },
            None => {},
        }
        i += 1;
    }
    assert(documents@.subrange(0, i as int) =~= documents@);
    (direction_of(is_push), out)
}


/// The earlier of a sequence that is held back and a new one.
fn earlier(held: Option<u64>, sequence: u64) -> (r: Option<u64>)
    ensures
        r == earlier_of(held, sequence),
{
    match held {
        Some(h) => if h <= sequence {
            Some(h)
        } else {
            Some(sequence)
        },
        None => Some(sequence),
    }
}

/// True when `passage` is what became of the candidate `c` in a round of
/// pushing with encryption: the filter held it back; or the filter let it pass
/// and the encryption of its properties gave the properties, or the failure,
/// of the passage.
pub open spec fn push_passage<
    F: Fn(&Document, bool, bool) -> bool,
    EN: Fn(
        Option<String>,
        Dict,
        Option<String>,
        Vec<u8>,
        Option<String>,
        Option<String>,
        &Error,
    ) -> Result<Vec<u8>, EncryptionError>,
>(filter: Option<F>, encryptor: Option<EN>, c: ChangeModel, passage: Passage) -> bool {
    match passage {
        Passage::Held => filter_allows(filter, c, false),
        Passage::Through(properties) => filter_allows(filter, c, true) && encryption_gives(
            encryptor,
            c.document.id,
            c.document.properties,
            Ok::<crate::fleece::Entries, EncryptionError>(properties),
        ),
        Passage::Failed(e) => filter_allows(filter, c, true) && encryption_gives(
            encryptor,
            c.document.id,
            c.document.properties,
            Err::<crate::fleece::Entries, EncryptionError>(e),
        ),
    }
}

/// True when `passage` is what became of the candidate `c` in a round of
/// pulling with decryption: the filter held it back; or the filter let it pass
/// and the decryption of its properties gave the properties, or the failure,
/// of the passage.
pub open spec fn pull_passage<
    F: Fn(&Document, bool, bool) -> bool,
    DE: Fn(
        Option<String>,
        Dict,
        Option<String>,
        Vec<u8>,
        Option<String>,
        Option<String>,
        &Error,
    ) -> Result<Vec<u8>, EncryptionError>,
>(filter: Option<F>, decryptor: Option<DE>, c: ChangeModel, passage: Passage) -> bool {
    match passage {
        Passage::Held => filter_allows(filter, c, false),
        Passage::Through(properties) => filter_allows(filter, c, true) && decryption_gives(
            decryptor,
            c.document.id,
            c.document.properties,
            Ok::<crate::fleece::Entries, EncryptionError>(properties),
        ),
        Passage::Failed(e) => filter_allows(filter, c, true) && decryption_gives(
            decryptor,
            c.document.id,
            c.document.properties,
            Err::<crate::fleece::Entries, EncryptionError>(e),
        ),
    }
}

/// True when candidate `k` of a round of pulling with decryption came through
/// and meets a conflict: the local database, as the round has left it so far,
/// holds a revision of the document that the other side does not have. Then the
/// resolver is asked about the candidate with its decrypted properties.
pub open spec fn opened_meets_conflict(
    t: TransferModel,
    local: DatabaseModel,
    candidates: Seq<ChangeModel>,
    passages: Seq<Passage>,
    answers: Seq<Answer>,
    k: int,
) -> bool {
    let before = pull_opened_all(
        t,
        local,
        candidates.subrange(0, k),
        passages.subrange(0, k),
        answers.subrange(0, k),
    );
    passages[k] is Through && target_moved(
        before.1,
        candidates[k].document.id,
        mark_of(before.0.marks, candidates[k].document.id).local_sequence,
    )
}

/// True when `answers` holds what the resolver said in a round of pulling with
/// decryption: for each candidate that came through and meets a conflict, the
/// resolver's answer for the candidate with its decrypted properties.
pub open spec fn opened_answers<CR: Fn(&str, Option<Document>, Option<Document>) -> Option<Document>>(
    resolver: Option<CR>,
    t: TransferModel,
    local: DatabaseModel,
    candidates: Seq<ChangeModel>,
    passages: Seq<Passage>,
    answers: Seq<Answer>,
) -> bool {
    forall|k: int|
        0 <= k < candidates.len() && #[trigger] opened_meets_conflict(
            t,
            local,
            candidates,
            passages,
            answers,
            k,
        ) ==> resolver_answers(
            resolver,
            pull_opened_all(
                t,
                local,
                candidates.subrange(0, k),
                passages.subrange(0, k),
                answers.subrange(0, k),
            ).1,
            with_properties(candidates[k], passages[k]->Through_0),
            answers[k],
        )
}

impl Replicator {
    /// A round of pushing with encryption. It is a round of pushing as `push`
    /// does it, but that the properties of every document that passes the
    /// filter go through `encrypt_properties` before the document is pushed.
    /// A document whose properties cannot be encrypted is not pushed, and is
    /// reported with the error `Crypto`. After a temporary failure the
    /// checkpoint stays before the first document that failed so, so that the
    /// next round looks at it again; a permanent failure does not hold the
    /// checkpoint back, and the document waits for its next revision.
    pub fn push_with_encryption<F, EN>(
        &mut self,
        filter: &Option<F>,
        encryptor: &Option<EN>,
        local: &Database,
        remote: &mut Database,
    ) -> (r: Vec<ReplicatedDocument>) where
        F: Fn(&Document, bool, bool) -> bool,
        EN: Fn(
            Option<String>,
            Dict,
            Option<String>,
            Vec<u8>,
            Option<String>,
            Option<String>,
            &Error,
        ) -> Result<Vec<u8>, EncryptionError>,

        requires
            old(self).wf(),
            local.wf(),
            old(remote).wf(),
            filter matches Some(f) ==> forall|d: &Document, deleted: bool, removed: bool|
                d.wf() ==> call_requires(f, (d, deleted, removed)),
            encryptor matches Some(f) ==> forall|
                id: Option<String>,
                all: Dict,
                key: Option<String>,
                input: Vec<u8>,
                algorithm: Option<String>,
                kid: Option<String>,
                error: &Error,
            | call_requires(f, (id, all, key, input, algorithm, kid, error)),
        ensures
            final(self).wf(),
            final(remote).wf(),
            final(remote).spec_name() == old(remote).spec_name(),
            final(remote).spec_index_names() == old(remote).spec_index_names(),
            final(self).spec_config() == old(self).spec_config(),
            final(self).spec_headers() == old(self).spec_headers(),
            final(self).spec_lifecycle() == old(self).spec_lifecycle(),
            !(old(self).spec_is_transferring() && old(self).spec_config().replicator_type
                != ReplicatorType::Pull) ==> {
                &&& r@.len() == 0
                &&& final(self).spec_transfer() == old(self).spec_transfer()
                &&& final(remote)@ == old(remote)@
            },
            old(self).spec_is_transferring() && old(self).spec_config().replicator_type
                != ReplicatorType::Pull ==> exists|passages: Seq<Passage>|
                #![trigger push_sealed_all(old(self).spec_transfer(), old(remote)@, old(self).spec_push_candidates(local@), passages)]
                {
                    &&& passages.len() == old(self).spec_push_candidates(local@).len()
                    &&& forall|k: int|
                        0 <= k < passages.len() ==> push_passage(
                            *filter,
                            *encryptor,
                            old(self).spec_push_candidates(local@)[k],
                            #[trigger] passages[k],
                        )
                    &&& final(self).spec_transfer() == (TransferModel {
                        push_checkpoint: checkpoint_after(
                            push_sealed_all(
                                old(self).spec_transfer(),
                                old(remote)@,
                                old(self).spec_push_candidates(local@),
                                passages,
                            ).3,
                            local@.last_sequence,
                        ),
                        ..push_sealed_all(
                            old(self).spec_transfer(),
                            old(remote)@,
                            old(self).spec_push_candidates(local@),
                            passages,
                        ).0
                    })
                    &&& final(remote)@ == push_sealed_all(
                        old(self).spec_transfer(),
                        old(remote)@,
                        old(self).spec_push_candidates(local@),
                        passages,
                    ).1
                    &&& reports_model(r@) == push_sealed_all(
                        old(self).spec_transfer(),
                        old(remote)@,
                        old(self).spec_push_candidates(local@),
                        passages,
                    ).2
                },
    {
        let mut log: Vec<ReplicatedDocument> = Vec::new();
        if !(self.is_transferring() && self.config.replicator_type.pushes()) {
            return log;
        }
        let candidates = self.push_candidates(local);
        let ghost all = changes_model(candidates@);
        let ghost t0 = self.spec_transfer();
        let ghost r0 = remote@;
        let ghost mut passages: Seq<Passage> = Seq::empty();
        let mut held: Option<u64> = None;
        let mut i: usize = 0;
        proof {
            assert(all.subrange(0, 0) =~= Seq::empty());
            assert(reports_model(log@) =~= Seq::empty());
        }
        while i < candidates.len()
            invariant
                i <= candidates.len(),
                all == changes_model(candidates@),
                forall|k: int|
                    0 <= k < candidates@.len() ==> (#[trigger] candidates@[k]).document.wf(),
                filter matches Some(f) ==> forall|d: &Document, deleted: bool, removed: bool|
                    d.wf() ==> call_requires(f, (d, deleted, removed)),
                encryptor matches Some(f) ==> forall|
                    id: Option<String>,
                    all: Dict,
                    key: Option<String>,
                    input: Vec<u8>,
                    algorithm: Option<String>,
                    kid: Option<String>,
                    error: &Error,
                | call_requires(f, (id, all, key, input, algorithm, kid, error)),
                remote.wf(),
                remote.spec_name() == old(remote).spec_name(),
                remote.spec_index_names() == old(remote).spec_index_names(),
                self.spec_config() == old(self).spec_config(),
                self.spec_headers() == old(self).spec_headers(),
                self.spec_lifecycle() == old(self).spec_lifecycle(),
                passages.len() == i,
                forall|k: int|
                    0 <= k < i ==> push_passage(*filter, *encryptor, all[k], #[trigger] passages[k]),
                (self.spec_transfer(), remote@, reports_model(log@), held) == push_sealed_all(
                    t0,
                    r0,
                    all.subrange(0, i as int),
                    passages,
                ),
            decreases candidates.len() - i,
        {
            let change = &candidates[i];
            let ghost before_log = reports_model(log@);
            let ghost before_passages = passages;
            let ghost mut passage = Passage::Held;
            if ask_filter(filter, change) {
                let properties = change.document.properties().mutable_copy();
                proof {
                    properties.lemma_view_is_dict();
                }
                match encrypt_properties(change.document.id(), &properties, encryptor) {
                    Ok(sealed) => {
                        proof {
                            passage = Passage::Through(sealed.spec_entries());
                        }
                        let document = Document::wrap(
                            change.document.id().to_owned(),
                            change.document.sequence(),
                            sealed,
                        );
                        let sealed_change = Change { document, deleted: change.deleted };
                        let entry = self.apply_push(&sealed_change, remote);
                        log.push(entry);
                        assert(reports_model(log@) =~= before_log.push(entry@));
                    },
                    Err(kind) => {
                        proof {
                            passage = Passage::Failed(kind);
                        }
                        let entry = report(
                            change,
                            Err(Error::cbl_error(CouchbaseLiteError::Crypto)),
                        );
                        log.push(entry);
                        assert(reports_model(log@) =~= before_log.push(entry@));
                        match kind {
                            EncryptionError::Temporary => {
                                held = earlier(held, change.document.sequence());
                            },
                            EncryptionError::Permanent => {},
                        }
                    },
                }
            }
            proof {
                passages = passages.push(passage);
                let next = all.subrange(0, i + 1);
                assert(next.drop_last() =~= all.subrange(0, i as int));
                assert(next.last() == all[i as int]);
                assert(passages.drop_last() =~= before_passages);
                assert(all[i as int] == change@);
            }
            i += 1;
        }
        proof {
            assert(all.subrange(0, i as int) =~= all);
        }
        match held {
            Some(h) => {
                self.push_checkpoint = if h >= 1 {
                    h - 1
                } else {
                    0
                };
            },
            None => {
                self.push_checkpoint = local.last_sequence();
            },
        }
        proof {
            let done = push_sealed_all(
                old(self).spec_transfer(),
                old(remote)@,
                old(self).spec_push_candidates(local@),
                passages,
            );
            assert(all == old(self).spec_push_candidates(local@));
            assert(self.spec_transfer() == (TransferModel {
                push_checkpoint: checkpoint_after(done.3, local@.last_sequence),
                ..done.0
            }));
            assert(remote@ == done.1);
            assert(reports_model(log@) == done.2);
        }
        log
    }

    /// A round of pulling with decryption. It is a round of pulling as `pull`
    /// does it, but that the properties of every document that passes the
    /// filter go through `decrypt_properties` before the document is taken in.
    /// A document whose properties cannot be decrypted is not taken in, and is
    /// reported with the error `Crypto`. After a temporary failure the
    /// checkpoint stays before the first document that failed so, so that the
    /// next round looks at it again; a permanent failure does not hold the
    /// checkpoint back, and the document waits for its next revision.
    pub fn pull_with_decryption<F, CR, DE>(
        &mut self,
        filter: &Option<F>,
        resolver: &Option<CR>,
        decryptor: &Option<DE>,
        local: &mut Database,
        remote: &Database,
    ) -> (r: Vec<ReplicatedDocument>) where
        F: Fn(&Document, bool, bool) -> bool,
        CR: Fn(&str, Option<Document>, Option<Document>) -> Option<Document>,
        DE: Fn(
            Option<String>,
            Dict,
            Option<String>,
            Vec<u8>,
            Option<String>,
            Option<String>,
            &Error,
        ) -> Result<Vec<u8>, EncryptionError>,

        requires
            old(self).wf(),
            old(local).wf(),
            remote.wf(),
            filter matches Some(f) ==> forall|d: &Document, deleted: bool, removed: bool|
                d.wf() ==> call_requires(f, (d, deleted, removed)),
            resolver matches Some(res) ==> forall|
                id: &str,
                mine: Option<Document>,
                theirs: Option<Document>,
            |
                (mine matches Some(d) ==> d.wf()) && (theirs matches Some(d) ==> d.wf())
                    ==> call_requires(res, (id, mine, theirs)),
            resolver matches Some(res) ==> forall|
                id: &str,
                mine: Option<Document>,
                theirs: Option<Document>,
                out: Option<Document>,
            |
                call_ensures(res, (id, mine, theirs), out) ==> (out matches Some(d) ==> d.wf()),
            decryptor matches Some(f) ==> forall|
                id: Option<String>,
                all: Dict,
                key: Option<String>,
                input: Vec<u8>,
                algorithm: Option<String>,
                kid: Option<String>,
                error: &Error,
            | call_requires(f, (id, all, key, input, algorithm, kid, error)),
        ensures
            final(self).wf(),
            final(local).wf(),
            final(local).spec_name() == old(local).spec_name(),
            final(local).spec_index_names() == old(local).spec_index_names(),
            final(self).spec_config() == old(self).spec_config(),
            final(self).spec_headers() == old(self).spec_headers(),
            final(self).spec_lifecycle() == old(self).spec_lifecycle(),
            !(old(self).spec_is_transferring() && old(self).spec_config().replicator_type
                != ReplicatorType::Push) ==> {
                &&& r@.len() == 0
                &&& final(self).spec_transfer() == old(self).spec_transfer()
                &&& final(local)@ == old(local)@
            },
            old(self).spec_is_transferring() && old(self).spec_config().replicator_type
                != ReplicatorType::Push ==> exists|passages: Seq<Passage>, answers: Seq<Answer>|
                #![trigger pull_opened_all(old(self).spec_transfer(), old(local)@, old(self).spec_pull_candidates(remote@), passages, answers)]
                {
                    &&& passages.len() == old(self).spec_pull_candidates(remote@).len()
                    &&& answers.len() == passages.len()
                    &&& forall|k: int|
                        0 <= k < passages.len() ==> pull_passage(
                            *filter,
                            *decryptor,
                            old(self).spec_pull_candidates(remote@)[k],
                            #[trigger] passages[k],
                        )
                    &&& opened_answers(
                        *resolver,
                        old(self).spec_transfer(),
                        old(local)@,
                        old(self).spec_pull_candidates(remote@),
                        passages,
                        answers,
                    )
                    &&& final(self).spec_transfer() == (TransferModel {
                        pull_checkpoint: checkpoint_after(
                            pull_opened_all(
                                old(self).spec_transfer(),
                                old(local)@,
                                old(self).spec_pull_candidates(remote@),
                                passages,
                                answers,
                            ).3,
                            remote@.last_sequence,
                        ),
                        ..pull_opened_all(
                            old(self).spec_transfer(),
                            old(local)@,
                            old(self).spec_pull_candidates(remote@),
                            passages,
                            answers,
                        ).0
                    })
                    &&& final(local)@ == pull_opened_all(
                        old(self).spec_transfer(),
                        old(local)@,
                        old(self).spec_pull_candidates(remote@),
                        passages,
                        answers,
                    ).1
                    &&& reports_model(r@) == pull_opened_all(
                        old(self).spec_transfer(),
                        old(local)@,
                        old(self).spec_pull_candidates(remote@),
                        passages,
                        answers,
                    ).2
                },
    {
        let mut log: Vec<ReplicatedDocument> = Vec::new();
        if !(self.is_transferring() && self.config.replicator_type.pulls()) {
            return log;
        }
        let candidates = self.pull_candidates(remote);
        let ghost all = changes_model(candidates@);
        let ghost t0 = self.spec_transfer();
        let ghost l0 = local@;
        let ghost mut passages: Seq<Passage> = Seq::empty();
        let ghost mut answers: Seq<Answer> = Seq::empty();
        let mut held: Option<u64> = None;
        let mut i: usize = 0;
        proof {
            assert(all.subrange(0, 0) =~= Seq::empty());
            assert(reports_model(log@) =~= Seq::empty());
        }
        while i < candidates.len()
            invariant
                i <= candidates.len(),
                all == changes_model(candidates@),
                forall|k: int|
                    0 <= k < candidates@.len() ==> (#[trigger] candidates@[k]).document.wf(),
                filter matches Some(f) ==> forall|d: &Document, deleted: bool, removed: bool|
                    d.wf() ==> call_requires(f, (d, deleted, removed)),
                resolver matches Some(res) ==> forall|
                    id: &str,
                    mine: Option<Document>,
                    theirs: Option<Document>,
                |
                    (mine matches Some(d) ==> d.wf()) && (theirs matches Some(d) ==> d.wf())
                        ==> call_requires(res, (id, mine, theirs)),
                resolver matches Some(res) ==> forall|
                    id: &str,
                    mine: Option<Document>,
                    theirs: Option<Document>,
                    out: Option<Document>,
                |
                    call_ensures(res, (id, mine, theirs), out) ==> (out matches Some(d) ==> d.wf()),
                decryptor matches Some(f) ==> forall|
                    id: Option<String>,
                    all: Dict,
                    key: Option<String>,
                    input: Vec<u8>,
                    algorithm: Option<String>,
                    kid: Option<String>,
                    error: &Error,
                | call_requires(f, (id, all, key, input, algorithm, kid, error)),
                local.wf(),
                local.spec_name() == old(local).spec_name(),
                local.spec_index_names() == old(local).spec_index_names(),
                self.spec_config() == old(self).spec_config(),
                self.spec_headers() == old(self).spec_headers(),
                self.spec_lifecycle() == old(self).spec_lifecycle(),
                passages.len() == i,
                answers.len() == i,
                forall|k: int|
                    0 <= k < i ==> pull_passage(*filter, *decryptor, all[k], #[trigger] passages[k]),
                opened_answers(*resolver, t0, l0, all.subrange(0, i as int), passages, answers),
                (self.spec_transfer(), local@, reports_model(log@), held) == pull_opened_all(
                    t0,
                    l0,
                    all.subrange(0, i as int),
                    passages,
                    answers,
                ),
            decreases candidates.len() - i,
        {
            let change = &candidates[i];
            let ghost before_log = reports_model(log@);
            let ghost before_passages = passages;
            let ghost before_answers = answers;
            let ghost mut passage = Passage::Held;
            let ghost mut answer: Answer = None;
            if ask_filter(filter, change) {
                let properties = change.document.properties().mutable_copy();
                proof {
                    properties.lemma_view_is_dict();
                }
                match decrypt_properties(change.document.id(), &properties, decryptor) {
                    Ok(opened) => {
                        proof {
                            passage = Passage::Through(opened.spec_entries());
                        }
                        let document = Document::wrap(
                            change.document.id().to_owned(),
                            change.document.sequence(),
                            opened,
                        );
                        let opened_change = Change { document, deleted: change.deleted };
                        let conflict = self.is_pull_conflict(local, &opened_change);
                        let entry = match resolver {
                            Some(res) => {
                                if conflict {
                                    let out = ask_resolver(res, &opened_change, local);
                                    proof {
                                        answer = Some(settled_by(out));
                                    }
                                    self.apply_resolution(&opened_change, out.as_ref(), local)
                                } else {
                                    self.apply_pull(&opened_change, local)
                                }
                            },
                            None => self.apply_pull(&opened_change, local),
                        };
                        log.push(entry);
                        assert(reports_model(log@) =~= before_log.push(entry@));
                    },
                    Err(kind) => {
                        proof {
                            passage = Passage::Failed(kind);
                        }
                        let entry = report(
                            change,
                            Err(Error::cbl_error(CouchbaseLiteError::Crypto)),
                        );
                        log.push(entry);
                        assert(reports_model(log@) =~= before_log.push(entry@));
                        match kind {
                            EncryptionError::Temporary => {
                                held = earlier(held, change.document.sequence());
                            },
                            EncryptionError::Permanent => {},
                        }
                    },
                }
            }
            proof {
                passages = passages.push(passage);
                answers = answers.push(answer);
                let prefix = all.subrange(0, i as int);
                let next = all.subrange(0, i + 1);
                assert(next.drop_last() =~= prefix);
                assert(next.last() == all[i as int]);
                assert(passages.drop_last() =~= before_passages);
                assert(answers.drop_last() =~= before_answers);
                assert(all[i as int] == change@);
                assert forall|k: int|
                    0 <= k < next.len() && #[trigger] opened_meets_conflict(
                        t0,
                        l0,
                        next,
                        passages,
                        answers,
                        k,
                    ) implies resolver_answers(
                    *resolver,
                    pull_opened_all(
                        t0,
                        l0,
                        next.subrange(0, k),
                        passages.subrange(0, k),
                        answers.subrange(0, k),
                    ).1,
                    with_properties(next[k], passages[k]->Through_0),
                    answers[k],
                ) by {
                    assert(next.subrange(0, k) =~= prefix.subrange(0, k));
                    assert(passages.subrange(0, k) =~= before_passages.subrange(0, k));
                    assert(answers.subrange(0, k) =~= before_answers.subrange(0, k));
                    if k < i {
                        assert(next[k] == prefix[k]);
                        assert(passages[k] == before_passages[k]);
                        assert(answers[k] == before_answers[k]);
                        assert(opened_meets_conflict(
                            t0,
                            l0,
                            prefix,
                            before_passages,
                            before_answers,
                            k,
                        ));
                    } else {
                        assert(prefix.subrange(0, k) =~= prefix);
                        assert(before_passages.subrange(0, k) =~= before_passages);
                        assert(before_answers.subrange(0, k) =~= before_answers);
                    }
                }
            }
            i += 1;
        }
        proof {
            assert(all.subrange(0, i as int) =~= all);
        }
        match held {
            Some(h) => {
                self.pull_checkpoint = if h >= 1 {
                    h - 1
                } else {
                    0
                };
            },
            None => {
                self.pull_checkpoint = remote.last_sequence();
            },
        }
        proof {
            let done = pull_opened_all(
                old(self).spec_transfer(),
                old(local)@,
                old(self).spec_pull_candidates(remote@),
                passages,
                answers,
            );
            assert(all == old(self).spec_pull_candidates(remote@));
            assert(self.spec_transfer() == (TransferModel {
                pull_checkpoint: checkpoint_after(done.3, remote@.last_sequence),
                ..done.0
            }));
            assert(local@ == done.1);
            assert(reports_model(log@) == done.2);
        }
        log
    }
}

} // verus!
