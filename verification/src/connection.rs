//! A byte stream to a device, and the record of what was exchanged over it.

use vstd::prelude::*;

use crate::error;
use crate::error::ErrorView;
use crate::error::MpError;
use crate::serial;

verus! {

/// One use of a connection: what was asked of it, and what it replied.
pub enum Exchange {
    /// Exactly `n` bytes were asked for.
    ReadExact { n: nat, timeout_ms: nat, reply: Result<Seq<u8>, ErrorView> },
    /// Bytes up to and including `pattern` were asked for.
    ReadUntil { pattern: Seq<u8>, timeout_ms: nat, reply: Result<Seq<u8>, ErrorView> },
    /// Whatever is available was asked for.
    ReadAvailable { reply: Result<Seq<u8>, ErrorView> },
    /// Bytes were pushed back.
    Unread { data: Seq<u8> },
    /// Bytes were written.
    Write { data: Seq<u8>, status: Result<(), ErrorView> },
    /// The connection was asked whether nothing waits to be read.
    IncomingIsEmpty { empty: bool },
    /// All pending input was dropped.
    FlushInput,
    /// Time was let pass.
    Pause { ms: nat },
    /// The clock was read.
    Clock { shows: nat },
}

impl Exchange {
    /// What a read of exactly `n` bytes gave, if that is what was exchanged: `n`
    /// bytes or an error.
    pub open spec fn exact(self, n: nat, timeout_ms: nat) -> Option<Result<Seq<u8>, ErrorView>> {
        match self {
            Exchange::ReadExact { n: m, timeout_ms: t, reply } => if m == n && t == timeout_ms && (
            reply matches Ok(data) ==> data.len() == n) {
                Some(reply)
            } else {
                None
            },
            _ => None,
        }
    }

    /// What a read up to `pattern` gave, if that is what was exchanged: bytes that
    /// hold the pattern, or an error.
    pub open spec fn until(self, pattern: Seq<u8>, timeout_ms: nat) -> Option<
        Result<Seq<u8>, ErrorView>,
    > {
        match self {
            Exchange::ReadUntil { pattern: p, timeout_ms: t, reply } => if p == pattern && t
                == timeout_ms && (reply matches Ok(data) ==> serial::holds_bytes(data, pattern)) {
                Some(reply)
            } else {
                None
            },
            _ => None,
        }
    }

    /// What a read of everything available gave, if that is what was exchanged.
    pub open spec fn available(self) -> Option<Result<Seq<u8>, ErrorView>> {
        match self {
            Exchange::ReadAvailable { reply } => Some(reply),
            _ => None,
        }
    }

    /// How a write of `data` went, if that is what was exchanged.
    pub open spec fn wrote(self, data: Seq<u8>) -> Option<Result<(), ErrorView>> {
        match self {
            Exchange::Write { data: d, status } => if d == data {
                Some(status)
            } else {
                None
            },
            _ => None,
        }
    }

    /// Whether nothing waits to be read, if that is what was exchanged.
    pub open spec fn incoming(self) -> Option<bool> {
        match self {
            Exchange::IncomingIsEmpty { empty } => Some(empty),
            _ => None,
        }
    }

    /// What the clock shows, if that is what was exchanged.
    pub open spec fn time(self) -> Option<nat> {
        match self {
            Exchange::Clock { shows } => Some(shows),
            _ => None,
        }
    }
}

/// The exchanges over a connection, in order.
pub type Record = Seq<Exchange>;

/// A time in milliseconds.
pub type Time = nat;

/// Abstraction over a byte-stream connection to a MicroPython device.
///
/// A connection has a record of every exchange, in order, and a clock that never
/// runs backwards. Times are in milliseconds. The record and the time exist in
/// proofs only: an implementation in ordinary Rust gives them a body that is never
/// run.
pub trait Connection {
    /// Every exchange so far.
    spec fn record(&self) -> Record;

    /// How much time has passed on the connection's clock.
    spec fn now(&self) -> Time;

    /// Read exactly `n` bytes, or fail. A read that fails with a timeout has
    /// waited as long as it was told to.
    fn read_exact(&mut self, n: usize, timeout_ms: u64) -> (r: Result<Vec<u8>, MpError>)
        ensures
            final(self).record() == old(self).record().push(
                (Exchange::ReadExact {
                    n: n as nat,
                    timeout_ms: timeout_ms as nat,
                    reply: error::outcome(r),
                }),
            ),
            r matches Ok(data) ==> data@.len() == n,
            final(self).now() >= old(self).now(),
            r matches Err(MpError::Timeout(_)) ==> final(self).now() >= old(self).now()
                + timeout_ms,
    ;

    /// Read until `pattern` is found in the accumulated buffer.
    /// Returns all bytes consumed (including the pattern).
    fn read_until(&mut self, pattern: &[u8], timeout_ms: u64) -> (r: Result<Vec<u8>, MpError>)
        ensures
            final(self).record() == old(self).record().push(
                (Exchange::ReadUntil {
                    pattern: pattern@,
                    timeout_ms: timeout_ms as nat,
                    reply: error::outcome(r),
                }),
            ),
            r matches Ok(data) ==> serial::holds_bytes(data@, pattern@),
            final(self).now() >= old(self).now(),
    ;

    /// Read whatever is available right now.
    fn read_all_available(&mut self) -> (r: Result<Vec<u8>, MpError>)
        ensures
            final(self).record() == old(self).record().push(
                (Exchange::ReadAvailable { reply: error::outcome(r) }),
            ),
            final(self).now() >= old(self).now(),
    ;

    /// Push bytes back so the next read returns them first.
    fn unread(&mut self, data: &[u8])
        ensures
            final(self).record() == old(self).record().push((Exchange::Unread { data: data@ })),
            final(self).now() >= old(self).now(),
    ;

    /// Write all bytes.
    fn write_all(&mut self, data: &[u8]) -> (r: Result<(), MpError>)
        ensures
            final(self).record() == old(self).record().push(
                (Exchange::Write { data: data@, status: error::outcome(r) }),
            ),
            final(self).now() >= old(self).now(),
    ;

    /// Check if there's nothing waiting to be read.
    fn incoming_is_empty(&mut self) -> (r: bool)
        ensures
            final(self).record() == old(self).record().push(
                (Exchange::IncomingIsEmpty { empty: r }),
            ),
            final(self).now() >= old(self).now(),
    ;

    /// Drain all pending input bytes, pushed back bytes included.
    fn flush_input(&mut self)
        ensures
            final(self).record() == old(self).record().push(Exchange::FlushInput),
            final(self).now() >= old(self).now(),
    ;

    /// Let `ms` milliseconds pass.
    fn pause(&mut self, ms: u64)
        ensures
            final(self).record() == old(self).record().push((Exchange::Pause { ms: ms as nat })),
            final(self).now() >= old(self).now() + ms,
    ;

    /// Read the clock. It stands still once it has reached its largest value.
    fn clock(&mut self) -> (r: u64)
        ensures
            final(self).record() == old(self).record().push(
                (Exchange::Clock { shows: r as nat }),
            ),
            final(self).now() >= old(self).now(),
            r as nat == clock_value(final(self).now()),
    ;
}

/// What a clock shows after a time.
pub open spec fn clock_value(now: nat) -> nat {
    if now <= u64::MAX {
        now
    } else {
        u64::MAX as nat
    }
}

// ---------------------------------------------------------------------------
// Protocols as machines that read a record
// ---------------------------------------------------------------------------

/// The state of a machine that started in `start` and read the exchanges `t` one
/// after the other; `None` where it met an exchange that it does not make.
pub open spec fn run<S>(
    start: S,
    step: spec_fn(S, Exchange) -> Option<S>,
    t: Seq<Exchange>,
) -> Option<S>
    decreases t.len(),
{
    if t.len() == 0 {
        Some(start)
    } else {
        match run(start, step, t.drop_last()) {
            Some(s) => step(s, t.last()),
            None => None,
        }
    }
}

/// The record `post` continues the record `pre`, and a machine that starts in
/// `start` and makes the exchanges in between ends in `end`.
pub open spec fn leads<S>(
    start: S,
    step: spec_fn(S, Exchange) -> Option<S>,
    pre: Seq<Exchange>,
    post: Seq<Exchange>,
    end: S,
) -> bool {
    &&& pre.is_prefix_of(post)
    &&& run(start, step, post.skip(pre.len() as int)) == Some(end)
}

/// A machine that has made no exchange is in its start state.
pub proof fn lemma_leads_nowhere<S>(
    start: S,
    step: spec_fn(S, Exchange) -> Option<S>,
    pre: Seq<Exchange>,
)
    ensures
        leads(start, step, pre, pre, start),
{
    assert(pre.skip(pre.len() as int).len() == 0);
}

/// A machine makes one more exchange.
pub broadcast proof fn lemma_leads_on<S>(
    start: S,
    step: spec_fn(S, Exchange) -> Option<S>,
    pre: Seq<Exchange>,
    post: Seq<Exchange>,
    s: S,
    e: Exchange,
    next: S,
)
    requires
        leads(start, step, pre, post, s),
        step(s, e) == Some(next),
    ensures
        #![trigger leads(start, step, pre, post, s), leads(start, step, pre, post.push(e), next)]
        leads(start, step, pre, post.push(e), next),
{
    let t = post.push(e).skip(pre.len() as int);
    assert(t.drop_last() =~= post.skip(pre.len() as int));
    assert(t.last() == e);
}

/// The bytes that were written and accepted, in order.
pub open spec fn written(t: Seq<Exchange>) -> Seq<u8>
    decreases t.len(),
{
    if t.len() == 0 {
        Seq::empty()
    } else {
        match t.last() {
            Exchange::Write { data, status: Ok(_) } => written(t.drop_last()) + data,
            _ => written(t.drop_last()),
        }
    }
}

} // verus!
