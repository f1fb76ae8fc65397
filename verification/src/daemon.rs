//! Running the collector: what it starts with, where it listens, and when it
//! samples.
use std::time::UNIX_EPOCH;
use vstd::prelude::*;

use crate::config::{usable, Config, ConfigText};
use crate::metrics::{law_schema_width, metrics_for, Schema};
use crate::state::Shared;
use crate::store::{pushed, PushError, Record, Store};
use crate::text::{lemma_mentions, mentions};

verus! {

/// Why the daemon couldn't start.
#[derive(Debug, Clone, PartialEq, Eq)]
pub enum DaemonError {
    /// The store would be too big to allocate.
    TooLarge,
    /// Something is already listening on the socket's path.
    AlreadyRunning(String),
    /// The socket's path exists and isn't a socket, so it isn't ours to replace.
    NotASocket(String),
    /// Setting up the socket failed.
    Socket {
        /// The socket's path.
        path: String,
        /// What went wrong.
        source: String,
    },
    /// Starting the sampler thread failed.
    Thread(String),
}

/// What a [`DaemonError`] says.
pub ghost enum Trouble {
    /// The store would be too big to allocate.
    TooLarge,
    /// Something is already listening on the socket's path.
    AlreadyRunning(Seq<char>),
    /// The socket's path exists and isn't a socket, so it isn't ours to replace.
    NotASocket(Seq<char>),
    /// Setting up the socket failed.
    Socket {
        /// The socket's path.
        path: Seq<char>,
        /// What went wrong.
        source: Seq<char>,
    },
    /// Starting the sampler thread failed.
    Thread(Seq<char>),
}

impl View for DaemonError {
    type V = Trouble;

    open spec fn view(&self) -> Trouble {
        match self {
            DaemonError::TooLarge => Trouble::TooLarge,
            DaemonError::AlreadyRunning(path) => Trouble::AlreadyRunning(path@),
            DaemonError::NotASocket(path) => Trouble::NotASocket(path@),
            DaemonError::Socket { path, source } => Trouble::Socket { path: path@, source: source@ },
            DaemonError::Thread(source) => Trouble::Thread(source@),
        }
    }
}

impl Trouble {
    /// The trouble in words.
    pub open spec fn words(self) -> Seq<char> {
        match self {
            Trouble::TooLarge => "the store is too large to allocate"@,
            Trouble::AlreadyRunning(path) => "another process is already listening on "@ + path,
            Trouble::NotASocket(path) => path + " exists and is not a socket, so it has not been replaced"@,
            Trouble::Socket { path, source } => "cannot set up the socket "@ + path + ": "@ + source,
            Trouble::Thread(source) => "cannot start the sampler thread: "@ + source,
        }
    }
}

impl DaemonError {
    /// The error in words.
    pub fn message(&self) -> (r: String)
        ensures
            r@ == self@.words(),
    {
        match self {
            DaemonError::TooLarge => "the store is too large to allocate".to_owned(),
            DaemonError::AlreadyRunning(path) => "another process is already listening on ".to_owned().concat(path),
            DaemonError::NotASocket(path) => path.clone().concat(
                " exists and is not a socket, so it has not been replaced",
            ),
            DaemonError::Socket { path, source } => "cannot set up the socket ".to_owned().concat(path).concat(
                ": ",
            ).concat(source),
            DaemonError::Thread(source) => "cannot start the sampler thread: ".to_owned().concat(source),
        }
    }
}

/// An empty store for what `config` asks for, ready to be shared.
///
/// # Errors
/// If the store can't be allocated.
pub fn start(config: &Config) -> (r: Result<Shared, DaemonError>)
    requires
        config.capacity > 0,
    ensures
        match r {
            Ok(shared) => {
                &&& shared.wf()
                &&& shared.metrics() == metrics_for(config@.interfaces)
                &&& shared.interval_ms == config.interval_ms
                &&& shared.store.limit() == config.capacity
                &&& shared.records() == Seq::<Record>::empty()
            },
            Err(e) => e@ is TooLarge,
        },
        r is Ok == (Store::size(config.capacity as nat, metrics_for(config@.interfaces).len()) <= isize::MAX),
{
    let schema = Schema::new(&config.interfaces);
    match Store::new(config.capacity, schema.len()) {
        Some(store) => Ok(Shared::new(schema, config.interval_ms, store)),
        None => Err(DaemonError::TooLarge),
    }
}

/// Settings that were checked never ask for a store that is too big.
pub proof fn law_checked_settings_fit(config: ConfigText)
    requires
        usable(config),
    ensures
        config.capacity > 0,
        Store::size(config.capacity as nat, metrics_for(config.interfaces).len()) <= isize::MAX,
{
    law_schema_width(config.interfaces);
    assert(isize::MAX >= 0x7fff_ffff);
}

/// What was found at the path where the socket is to be.
#[derive(Debug, Clone, PartialEq, Eq)]
pub enum Found {
    /// Nothing.
    Missing,
    /// A socket.
    Socket,
    /// Something else: a file, a directory, a symbolic link.
    Other,
    /// Looking failed, for this reason.
    Failed(String),
}

/// What to do next about the path where the socket is to be.
#[derive(Debug, Clone, PartialEq, Eq)]
pub enum Next {
    /// Try to connect to the socket that is there.
    Probe,
    /// Remove the socket that is there.
    Remove,
    /// Nothing is in the way.
    Ready,
    /// Give up.
    Refuse(DaemonError),
}

/// Makes way for a fresh socket at `path`, the first step: `found` is what is
/// there now, not following a symbolic link. A path with nothing there is ready,
/// a socket has to be probed, and something that isn't a socket is never
/// touched.
pub fn after_looking(path: &str, found: Found) -> (next: Next)
    ensures
        match found {
            Found::Missing => next is Ready,
            Found::Socket => next is Probe,
            Found::Other => next matches Next::Refuse(e) && e@ == Trouble::NotASocket(path@),
            Found::Failed(reason) => next matches Next::Refuse(e) && e@ == (Trouble::Socket {
                path: path@,
                source: reason@,
            }),
        },
{
    match found {
        Found::Missing => Next::Ready,
        Found::Socket => Next::Probe,
        Found::Other => Next::Refuse(DaemonError::NotASocket(path.to_owned())),
        Found::Failed(reason) => Next::Refuse(DaemonError::Socket { path: path.to_owned(), source: reason }),
    }
}

/// The second step, for a socket: one that something answers on is live and
/// left alone, and one that nothing answers on was left by an earlier run and is
/// removed.
pub fn after_probing(path: &str, answered: bool) -> (next: Next)
    ensures
        answered ==> (next matches Next::Refuse(e) && e@ == Trouble::AlreadyRunning(path@)),
        !answered ==> next is Remove,
{
    if answered {
        Next::Refuse(DaemonError::AlreadyRunning(path.to_owned()))
    } else {
        Next::Remove
    }
}

/// The third step, once a stale socket was to be removed: `removed` is how that
/// went.
pub fn after_removing(path: &str, removed: Result<(), String>) -> (next: Next)
    ensures
        match removed {
            Ok(()) => next is Ready,
            Err(reason) => next matches Next::Refuse(e) && e@ == (Trouble::Socket { path: path@, source: reason@ }),
        },
{
    match removed {
        Ok(()) => Next::Ready,
        Err(reason) => Next::Refuse(DaemonError::Socket { path: path.to_owned(), source: reason }),
    }
}

/// The time for a new record: now, or if the clock stepped back to or before the
/// newest record, just after that.
pub open spec fn timestamp(newest: Option<u64>, now: u64) -> u64 {
    match newest {
        None => now,
        Some(newest) => if now > newest {
            now
        } else if newest < u64::MAX {
            (newest + 1) as u64
        } else {
            newest
        },
    }
}

/// The time for a new record, when it is `now` and the newest record was taken
/// at `newest`.
///
/// The clock can step (a machine with no battery clock jumps forward when it
/// first reaches the network), and records must stay in time order, so it is
/// always later than the newest, unless no time is.
pub fn next_timestamp(newest: Option<u64>, now: u64) -> (t: u64)
    ensures
        t == timestamp(newest, now),
        t >= now,
        newest matches Some(n) ==> n < u64::MAX ==> t > n,
{
    match newest {
        None => now,
        Some(newest) => {
            let after: u64 = newest.saturating_add(1);
            if now > after {
                now
            } else {
                after
            }
        },
    }
}

/// When the newest record was taken.
pub open spec fn newest(records: Seq<Record>) -> Option<u64> {
    if records.len() == 0 {
        None
    } else {
        Some(records.last().time)
    }
}

/// Records `row` as sampled now.
///
/// # Errors
/// If the row doesn't have a value for every metric, or no time is later than
/// the newest record's.
pub fn record(shared: &mut Shared, now: u64, row: &[u64]) -> (r: Result<(), PushError>)
    requires
        old(shared).wf(),
    ensures
        final(shared).wf(),
        final(shared).schema == old(shared).schema,
        final(shared).interval_ms == old(shared).interval_ms,
        final(shared).store.limit() == old(shared).store.limit(),
        r == (if row@.len() != old(shared).metrics().len() {
            Err(PushError::WrongWidth)
        } else if newest(old(shared).records()) == Some(u64::MAX) {
            Err(PushError::OutOfOrder)
        } else {
            Ok(())
        }),
        final(shared).records() == (if r is Ok {
            pushed(
                old(shared).records(),
                old(shared).store.limit(),
                (Record { time: timestamp(newest(old(shared).records()), now), row: row@ }),
            )
        } else {
            old(shared).records()
        }),
{
    let last = match shared.read().latest() {
        None => None,
        Some((time, _)) => Some(time),
    };
    let time = next_timestamp(last, now);
    shared.write().push(time, row)
}

/// When the next sample is due, and how long to wait for it: one interval after
/// the one before was due, so the time that reading takes doesn't add up as
/// drift, or if that has passed (the machine was suspended) one interval from
/// now. All in nanoseconds from the same start.
pub fn next_sample(due: u128, interval: u128, now: u128) -> (r: (u128, u128))
    requires
        due + interval <= u128::MAX,
        now + interval <= u128::MAX,
    ensures
        r.0 == (if due + interval > now {
            due + interval
        } else {
            now + interval
        }),
        r.1 == r.0 - now,
        interval > 0 ==> r.1 > 0,
        due <= now ==> r.1 <= interval,
{
    let next: u128 = due + interval;
    if next <= now {
        (now + interval, interval)
    } else {
        (next, next - now)
    }
}

/// Milliseconds since the Unix epoch, from the whole seconds and the nanoseconds
/// after them that the clock gives: 0 if the clock is before the epoch.
pub open spec fn clock(since_epoch: Option<(u64, u32)>) -> u64 {
    match since_epoch {
        None => 0,
        Some((secs, nanos)) => {
            let ms = secs * 1000 + nanos / 1_000_000;
            if ms > u64::MAX {
                u64::MAX
            } else {
                ms as u64
            }
        },
    }
}

/// Milliseconds since the Unix epoch, from the whole seconds and the nanoseconds
/// after them that the clock gives.
pub fn millis(since_epoch: Option<(u64, u32)>) -> (ms: u64)
    ensures
        ms == clock(since_epoch),
{
    match since_epoch {
        None => 0,
        Some((secs, nanos)) => {
            let ms: u128 = secs as u128 * 1000 + (nanos / 1_000_000) as u128;
            if ms > u64::MAX as u128 {
                u64::MAX
            } else {
                ms as u64
            }
        },
    }
}

/// `SystemTime::elapsed`, called on the Unix epoch: how long ago that was, as whole
/// seconds and the nanoseconds after them, or nothing if the clock is before it.
/// What the clock says is not stated.
#[verifier::external_body]
fn since_epoch() -> (r: Option<(u64, u32)>)
    ensures
        r matches Some((secs, nanos)) ==> nanos < 1_000_000_000,
{
    UNIX_EPOCH.elapsed().ok().map(|d| (d.as_secs(), d.subsec_nanos()))
}

/// Milliseconds since the Unix epoch (0 if the clock is before it). Nothing is
/// stated of the time: [`millis`] says what becomes of what the clock gives.
#[must_use]
pub fn unix_millis() -> u64 {
    millis(since_epoch())
}

/// A record is taken at the time it is, or if the clock isn't past the newest
/// record, one millisecond after that.
pub proof fn law_records_follow_the_clock(newest: u64, now: u64)
    ensures
        timestamp(None, now) == now,
        now > newest ==> timestamp(Some(newest), now) == now,
        now <= newest < u64::MAX ==> timestamp(Some(newest), now) == newest + 1,
{
}

/// The newest record is the last one.
pub proof fn law_the_last_record_is_the_newest(records: Seq<Record>, record: Record)
    ensures
        newest(records.push(record)) == Some(record.time),
        newest(Seq::<Record>::empty()) is None,
{
}

/// A clock's seconds are a thousand milliseconds each, and a million of its
/// nanoseconds are one. A clock before the epoch is at it, and one that is past what
/// can be counted at the end of that.
pub proof fn law_clock(secs: u64, nanos: u32)
    ensures
        clock(None) == 0,
        secs * 1000 + nanos / 1_000_000 <= u64::MAX ==> clock(Some((secs, nanos))) == secs * 1000 + nanos / 1_000_000,
        secs * 1000 + nanos / 1_000_000 > u64::MAX ==> clock(Some((secs, nanos))) == u64::MAX,
{
}

/// A message names the socket it is about, and the reason where there is one.
pub proof fn law_messages_name_the_socket(path: Seq<char>, source: Seq<char>)
    ensures
        mentions(Trouble::AlreadyRunning(path).words(), path),
        mentions(Trouble::NotASocket(path).words(), path),
        mentions((Trouble::Socket { path, source }).words(), path),
        mentions((Trouble::Socket { path, source }).words(), source),
        mentions(Trouble::Thread(source).words(), source),
{
    let none = Seq::<char>::empty();
    lemma_mentions("another process is already listening on "@, path, none);
    assert("another process is already listening on "@ + path + none =~= Trouble::AlreadyRunning(path).words());
    lemma_mentions(none, path, " exists and is not a socket, so it has not been replaced"@);
    assert(none + path + " exists and is not a socket, so it has not been replaced"@ =~= Trouble::NotASocket(path).words());
    let words = (Trouble::Socket { path, source }).words();
    lemma_mentions("cannot set up the socket "@, path, ": "@ + source);
    assert("cannot set up the socket "@ + path + (": "@ + source) =~= words);
    lemma_mentions("cannot set up the socket "@ + path + ": "@, source, none);
    assert("cannot set up the socket "@ + path + ": "@ + source + none =~= words);
    lemma_mentions("cannot start the sampler thread: "@, source, none);
    assert("cannot start the sampler thread: "@ + source + none =~= Trouble::Thread(source).words());
}

}
