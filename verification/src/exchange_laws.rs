//! Why a session fails and what a session that succeeds has exchanged, read off the
//! record alone.

use vstd::prelude::*;

use crate::connection;
use crate::connection::Exchange;
use crate::error::ErrorView;
use crate::hex;
use crate::operation_laws;
use crate::protocol::SubmitMode;
use crate::serial;
use crate::session;
use crate::session::EnterState;
use crate::session::FollowState;
use crate::session::Output;
use crate::session::PasteState;
use crate::session::RawPasteState;
use crate::session::RawState;
use crate::session::SessionView;
use crate::session_laws;
use crate::unicode;

verus! {

// ---------------------------------------------------------------------------
// Reading a record
// ---------------------------------------------------------------------------

/// Whether an exchange failed with an error.
pub open spec fn failed_with(x: Exchange, e: ErrorView) -> bool {
    match x {
        Exchange::ReadExact { reply, .. } => reply == Err::<Seq<u8>, ErrorView>(e),
        Exchange::ReadUntil { reply, .. } => reply == Err::<Seq<u8>, ErrorView>(e),
        Exchange::ReadAvailable { reply } => reply == Err::<Seq<u8>, ErrorView>(e),
        Exchange::Write { status, .. } => status == Err::<(), ErrorView>(e),
        _ => false,
    }
}

/// Whether an exchange is a read of exact length that gave these bytes.
pub open spec fn gave(x: Exchange, bytes: Seq<u8>) -> bool {
    x matches Exchange::ReadExact { reply: Ok(data), .. } && data == bytes
}

/// Whether an exchange is a read of exact length that gave a byte other than `b`.
pub open spec fn gave_other_than(x: Exchange, b: u8) -> bool {
    x matches Exchange::ReadExact { reply: Ok(data), .. } && data.len() == 1 && data[0] != b
}

/// Everything that was handed over to be written, in order, whether it was accepted
/// or not.
pub open spec fn attempted(t: Seq<Exchange>) -> Seq<u8>
    decreases t.len(),
{
    if t.len() == 0 {
        Seq::empty()
    } else {
        match t.last() {
            Exchange::Write { data, .. } => attempted(t.drop_last()) + data,
            _ => attempted(t.drop_last()),
        }
    }
}

// ---------------------------------------------------------------------------
// Collecting output
// ---------------------------------------------------------------------------

/// Whether the exchange with the number `k` lets collecting go on: the clock shows a
/// time before the deadline, or a read gave a byte or ran out of time.
pub open spec fn lets_go_on(x: Exchange, start: nat, timeout_ms: nat) -> bool {
    match x {
        Exchange::Clock { shows } => shows < start + timeout_ms && shows < u64::MAX,
        Exchange::ReadExact { reply: Ok(data), .. } => data.len() == 1,
        Exchange::ReadExact { reply: Err(e), .. } => e is Timeout,
        _ => false,
    }
}

/// Whether a record begins with a look at the clock and then lets collecting go on,
/// up to its last exchange.
pub open spec fn goes_on(t: Seq<Exchange>, timeout_ms: nat) -> bool {
    &&& t.len() > 0
    &&& t[0] is Clock
    &&& forall|k: int| 0 < k < t.len() ==> lets_go_on(#[trigger] t[k], t[0]->shows, timeout_ms)
}

proof fn lemma_goes_on(t: Seq<Exchange>, timeout_ms: nat)
    requires
        t.len() > 1,
        goes_on(t.drop_last(), timeout_ms),
        lets_go_on(t.last(), t[0]->shows, timeout_ms),
    ensures
        goes_on(t, timeout_ms),
{
    let before = t.drop_last();
    assert(before[0] == t[0]);
    assert forall|k: int| 0 < k < t.len() implies lets_go_on(
        #[trigger] t[k],
        t[0]->shows,
        timeout_ms,
    ) by {
        if k < before.len() {
            assert(before[k] == t[k]);
        }
    }
}

/// How often CTRL-D occurs in bytes.
pub open spec fn ends_in(s: Seq<u8>) -> nat
    decreases s.len(),
{
    if s.len() == 0 {
        0
    } else {
        ends_in(s.drop_last()) + if s.last() == 4 {
            1nat
        } else {
            0nat
        }
    }
}

/// What a record looks like in each state of `follow`.
spec fn follow_shape(s: FollowState, t: Seq<Exchange>, timeout_ms: nat) -> bool {
    match s {
        FollowState::Start => t.len() == 0,
        FollowState::Check(c) | FollowState::Read(c) => {
            &&& goes_on(t, timeout_ms)
            &&& c.deadline == connection::clock_value(t[0]->shows + timeout_ms)
            &&& ends_in(session_laws::received(t)) == if c.seen {
                1nat
            } else {
                0nat
            }
        },
        FollowState::Done(r) => {
            &&& t.len() > 1
            &&& goes_on(t.drop_last(), timeout_ms)
            &&& ends_in(session_laws::received(t.drop_last())) <= 1
            &&& match r {
                Ok(_) => gave(t.last(), seq![4u8]),
                Err(e) => {
                    ||| e is Timeout && t.last() is Clock && (t.last()->shows >= t[0]->shows
                        + timeout_ms || t.last()->shows >= u64::MAX)
                    ||| !(e is Timeout) && failed_with(t.last(), e)
                },
            }
        },
    }
}

proof fn lemma_follow_shape(timeout_ms: nat, t: Seq<Exchange>, s: FollowState)
    requires
        connection::run(FollowState::Start, session::follow_step(timeout_ms), t) == Some(s),
    ensures
        follow_shape(s, t, timeout_ms),
    decreases t.len(),
{
    let step = session::follow_step(timeout_ms);
    if t.len() > 0 {
        let p = t.drop_last();
        let before = connection::run(FollowState::Start, step, p)->0;
        lemma_follow_shape(timeout_ms, p, before);
        let e = t.last();
        match before {
            FollowState::Start => {
                assert(t[0] == e);
                assert(session_laws::received(p) == Seq::<u8>::empty());
            },
            FollowState::Check(c) => {
                assert(p[0] == t[0]);
                if s is Read {
                    lemma_goes_on(t, timeout_ms);
                }
            },
            FollowState::Read(c) => {
                assert(p[0] == t[0]);
                let got = session_laws::received(p);
                match e.exact(1, 100) {
                    Some(Ok(data)) => {
                        assert(data =~= seq![data[0]]);
                        assert(session_laws::received(t) == got + data);
                        assert((got + data).drop_last() =~= got);
                        if s is Check {
                            lemma_goes_on(t, timeout_ms);
                        }
                    },
                    Some(Err(ErrorView::Timeout(_))) => {
                        lemma_goes_on(t, timeout_ms);
                    },
                    _ => {},
                }
            },
            _ => {},
        }
    }
}

/// Collecting output fails for one of two reasons only: the clock has reached the
/// deadline, which is the time at the start and the timeout; or a read failed with
/// another error than a timeout. Up to then every look at the clock was before the
/// deadline, and a read that ran out of time was no reason to stop.
pub proof fn law_follow_fails_for_a_reason(
    pre: SessionView,
    timeout_ms: nat,
    post: SessionView,
    e: ErrorView,
)
    requires
        session::follows(pre, timeout_ms, post, Err(e)),
    ensures
        ({
            let t = session_laws::since(pre, post);
            &&& t.len() > 1
            &&& goes_on(t.drop_last(), timeout_ms)
            &&& {
                ||| e is Timeout && t.last() is Clock && (t.last()->shows >= t[0]->shows
                    + timeout_ms || t.last()->shows >= u64::MAX)
                ||| !(e is Timeout) && failed_with(t.last(), e)
            }
        }),
{
    lemma_follow_shape(timeout_ms, session_laws::since(pre, post), FollowState::Done(Err(e)));
}

/// Output is collected to its end, however slowly it comes: where every look at the
/// clock is before the deadline and no read fails but by running out of time, the
/// result is what was read: standard output up to the first CTRL-D and error output
/// up to the second. It ends there and not before.
pub proof fn law_slow_output_is_collected(
    pre: SessionView,
    timeout_ms: nat,
    post: SessionView,
    r: Result<Output, ErrorView>,
)
    requires
        session::follows(pre, timeout_ms, post, r),
        goes_on(session_laws::since(pre, post), timeout_ms),
    ensures
        r matches Ok(out) && session_laws::received(session_laws::since(pre, post)) == out.stdout
            + seq![4u8] + out.stderr + seq![4u8] && !out.stdout.contains(4)
            && !out.stderr.contains(4),
        ends_in(session_laws::received(session_laws::since(pre, post).drop_last())) == 1,
{
    let t = session_laws::since(pre, post);
    lemma_follow_shape(timeout_ms, t, FollowState::Done(r));
    assert(lets_go_on(t[t.len() - 1], t[0]->shows, timeout_ms));
    let out = r->Ok_0;
    session_laws::law_follow_splits_the_output(pre, timeout_ms, post, out);
    let got = session_laws::received(t.drop_last());
    let data = seq![4u8];
    assert(session_laws::received(t) == got + data);
    assert(got =~= (got + data).drop_last());
    assert(out.stdout + seq![4u8] + out.stderr + data =~= out.stdout + seq![4u8] + out.stderr
        + data);
    assert((out.stdout + seq![4u8] + out.stderr + data).drop_last() =~= out.stdout + seq![4u8]
        + out.stderr);
    lemma_ends_in(out.stdout, out.stderr);
}

proof fn lemma_no_ends(s: Seq<u8>)
    requires
        !s.contains(4),
    ensures
        ends_in(s) == 0,
    decreases s.len(),
{
    if s.len() > 0 {
        assert(s.contains(s[s.len() - 1]));
        assert forall|i: int| 0 <= i < s.drop_last().len() implies s.drop_last()[i] != 4 by {
            assert(s.contains(s[i]));
        }
        lemma_no_ends(s.drop_last());
    }
}

proof fn lemma_ends_in(a: Seq<u8>, b: Seq<u8>)
    requires
        !a.contains(4),
        !b.contains(4),
    ensures
        ends_in(a + seq![4u8] + b) == 1,
    decreases b.len(),
{
    let s = a + seq![4u8] + b;
    if b.len() == 0 {
        assert(s.drop_last() =~= a);
        lemma_no_ends(a);
    } else {
        assert(b.contains(b[b.len() - 1]));
        assert(s.drop_last() =~= a + seq![4u8] + b.drop_last());
        assert forall|i: int| 0 <= i < b.drop_last().len() implies b.drop_last()[i] != 4 by {
            assert(b.contains(b[i]));
        }
        lemma_ends_in(a, b.drop_last());
    }
}

// ---------------------------------------------------------------------------
// Entering and leaving the raw REPL
// ---------------------------------------------------------------------------

/// CTRL-C `k` times.
pub open spec fn interrupts(k: nat) -> Seq<u8> {
    Seq::new(k, |i: int| 3u8)
}

/// What entering the raw REPL sends: three interrupts, CTRL-B to leave a raw REPL that
/// may be open, a carriage return and CTRL-A; CTRL-D to restart.
pub open spec fn knocking(soft_reset: bool) -> Seq<u8> {
    if soft_reset {
        seq![3u8, 3u8, 3u8, 2u8, 13u8, 1u8, 4u8]
    } else {
        seq![3u8, 3u8, 3u8, 2u8, 13u8, 1u8]
    }
}

/// What a record looks like in each state of `enter_raw_repl`.
spec fn enter_shape(s: EnterState, t: Seq<Exchange>, soft_reset: bool) -> bool {
    let w = attempted(t);
    match s {
        EnterState::Drain { .. } | EnterState::DrainPause { .. } => w == interrupts(0),
        EnterState::Interrupt { k } => k < 3 && w == interrupts(k),
        EnterState::InterruptPause { k } => k < 3 && w == interrupts((k + 1) as nat),
        EnterState::Leave => w == interrupts(3),
        EnterState::LeavePause | EnterState::SettlePause { .. } | EnterState::Settle { .. } => w
            == interrupts(3).push(2),
        EnterState::Return => w == interrupts(3).push(2),
        EnterState::RawOn => w == interrupts(3).push(2).push(13),
        EnterState::Banner => w == interrupts(3).push(2).push(13).push(1),
        EnterState::Reset => soft_reset && w == interrupts(3).push(2).push(13).push(1),
        EnterState::Reboot | EnterState::BannerAgain => soft_reset && w == interrupts(3).push(
            2,
        ).push(13).push(1).push(4),
        EnterState::Done(r) => {
            &&& t.len() > 0
            &&& match r {
                Ok(_) => w == knocking(soft_reset),
                Err(e) => failed_with(t.last(), e),
            }
        },
    }
}

#[verifier::spinoff_prover]
proof fn lemma_enter_shape(timeout_ms: nat, soft_reset: bool, t: Seq<Exchange>, s: EnterState)
    requires
        connection::run(
            session::drained(0),
            session::enter_step(timeout_ms, soft_reset),
            t,
        ) == Some(s),
    ensures
        enter_shape(s, t, soft_reset),
    decreases t.len(),
{
    let step = session::enter_step(timeout_ms, soft_reset);
    assert(interrupts(0) =~= Seq::<u8>::empty());
    if t.len() > 0 {
        let p = t.drop_last();
        let before = connection::run(session::drained(0), step, p)->0;
        lemma_enter_shape(timeout_ms, soft_reset, p, before);
        let w = attempted(p);
        match before {
            EnterState::Interrupt { k } => {
                assert(w + seq![3u8] =~= interrupts((k + 1) as nat));
            },
            EnterState::Leave => {
                assert(w + seq![2u8] =~= interrupts(3).push(2));
            },
            EnterState::Return => {
                assert(w + seq![13u8] =~= w.push(13));
            },
            EnterState::RawOn => {
                assert(w + seq![1u8] =~= w.push(1));
            },
            EnterState::Reset => {
                assert(w + seq![4u8] =~= w.push(4));
            },
            EnterState::Banner => {
                assert(w =~= knocking(false));
            },
            EnterState::BannerAgain => {
                assert(w =~= knocking(true));
            },
            _ => {},
        }
    }
}

/// The bytes of the banner with which a device greets in the raw REPL.
pub open spec fn greeting() -> Seq<u8> {
    vstd::utf8::encode_utf8("raw REPL; CTRL-B to exit\r\n>"@)
}

/// Whoever entered the raw REPL has interrupted what ran, left a raw REPL that may
/// have been open and asked for it, in this order and with nothing else, and has read
/// the banner last. With a restart, CTRL-D was sent after the first banner.
pub proof fn law_entering_interrupts_and_knocks(
    pre: SessionView,
    soft_reset: bool,
    post: SessionView,
)
    requires
        session::enters(pre, soft_reset, post, Ok(())),
    ensures
        attempted(session_laws::since(pre, post)) == knocking(soft_reset),
        session_laws::since(pre, post).len() > 0,
        post.in_raw_repl,
        match post.record.last() {
            Exchange::ReadUntil { pattern, reply: Ok(data), .. } => pattern == greeting()
                && serial::holds_bytes(data, greeting()),
            _ => false,
        },
{
    let t = session_laws::since(pre, post);
    lemma_enter_shape(pre.timeout_ms, soft_reset, t, EnterState::Done(Ok(())));
    session_laws::law_enter_ends_with_the_banner(pre, soft_reset, post);
}

/// Entering the raw REPL fails only with the error of its last exchange.
pub proof fn law_entering_fails_for_a_reason(
    pre: SessionView,
    soft_reset: bool,
    post: SessionView,
    e: ErrorView,
)
    requires
        session::enters(pre, soft_reset, post, Err(e)),
    ensures
        session_laws::since(pre, post).len() > 0,
        failed_with(post.record.last(), e),
        post.in_raw_repl == pre.in_raw_repl,
{
    let t = session_laws::since(pre, post);
    lemma_enter_shape(pre.timeout_ms, soft_reset, t, EnterState::Done(Err(e)));
    assert(t.last() == post.record.last());
}

/// Leaving the raw REPL sends a carriage return and CTRL-B, and fails only with the
/// error of its last exchange.
pub proof fn law_leaving_sends_ctrl_b(
    pre: SessionView,
    post: SessionView,
    r: Result<(), ErrorView>,
)
    requires
        session::exits(pre, post, r),
    ensures
        post.record.len() > pre.record.len(),
        r is Ok ==> connection::written(session_laws::since(pre, post)) == seq![13u8, 2u8]
            && !post.in_raw_repl,
        r matches Err(e) ==> failed_with(post.record.last(), e),
{
    let n = pre.record.len() as int;
    let t = session_laws::since(pre, post);
    if r is Ok {
        let a = Exchange::Write { data: seq![13u8], status: Ok::<(), ErrorView>(()) };
        let b = Exchange::Write { data: seq![2u8], status: Ok::<(), ErrorView>(()) };
        assert(post.record =~= pre.record.push(a).push(b));
        assert(t =~= seq![a, b]);
        assert(t.drop_last() =~= seq![a]);
        assert(seq![a].drop_last().len() == 0);
        assert(connection::written(seq![a]) =~= seq![13u8]) by {
            assert(connection::written(seq![a].drop_last()) == Seq::<u8>::empty());
            assert(seq![a].last() == a);
        }
        assert(connection::written(t) =~= seq![13u8, 2u8]);
    }
}

// ---------------------------------------------------------------------------
// Submitting code
// ---------------------------------------------------------------------------

/// Whether a record ends with a reason for raw paste to fail with an error: the last
/// exchange failed with it; or the device has answered the request otherwise than that
/// it does raw paste; or the byte that it has sent last is neither a grant nor the
/// acknowledgement of the end; or it has stopped the transfer, which was then ended; or
/// it has granted windows without end.
pub open spec fn raw_paste_reason(t: Seq<Exchange>, e: ErrorView) -> bool {
    ||| failed_with(t.last(), e)
    ||| t.len() > 1 && (t[1] matches Exchange::ReadExact { reply: Ok(data), .. } && data != seq![
        0x52u8,
        0x01u8,
    ])
    ||| gave_other_than(t.last(), 1) && gave_other_than(t.last(), 4)
    ||| t.len() > 1 && gave(t[t.len() - 2], seq![4u8])
    ||| gave(t.last(), seq![1u8]) && (session_laws::received(t).len() > u64::MAX || (t.len() > 1
        && t[t.len() - 2].wrote(seq![4u8]) is Some))
}

/// What a record looks like in each state of a raw paste.
spec fn raw_paste_shape(s: RawPasteState, t: Seq<Exchange>) -> bool {
    let grants = session_laws::received(t).len();
    match s {
        RawPasteState::Ask => t.len() == 0,
        RawPasteState::Answer => t.len() == 1 && t[0] is Write,
        RawPasteState::Resync => t.len() == 2 && (t[1] matches Exchange::ReadExact { reply: Ok(data), .. } && data != seq![0x52u8, 0x01u8]),
        RawPasteState::WindowSize => t.len() == 2,
        RawPasteState::Peek { .. } | RawPasteState::Extra { .. } => t.len() > 2,
        RawPasteState::Poll(f) | RawPasteState::Control(f) | RawPasteState::Send(f) => t.len() > 2
            && f.grants <= grants,
        RawPasteState::Finish => t.len() > 2,
        RawPasteState::Abort => t.len() > 2 && gave(t.last(), seq![4u8]),
        RawPasteState::Ack => t.len() > 2 && t.last().wrote(seq![4u8]) is Some,
        RawPasteState::Done(r) => t.len() > 0 && (r matches Err(e) ==> raw_paste_reason(t, e)),
    }
}

#[verifier::spinoff_prover]
#[verifier::rlimit(40)]
proof fn lemma_raw_paste_shape(
    code: Seq<u8>,
    timeout_ms: nat,
    t: Seq<Exchange>,
    s: RawPasteState,
)
    requires
        connection::run(RawPasteState::Ask, session::raw_paste_step(code, timeout_ms), t) == Some(
            s,
        ),
    ensures
        raw_paste_shape(s, t),
    decreases t.len(),
{
    let step = session::raw_paste_step(code, timeout_ms);
    if t.len() > 0 {
        let p = t.drop_last();
        let before = connection::run(RawPasteState::Ask, step, p)->0;
        lemma_raw_paste_shape(code, timeout_ms, p, before);
        let x = t.last();
        assert forall|k: int| 0 <= k < p.len() implies p[k] == t[k] by {}
        let got = session_laws::received(p);
        match x {
            Exchange::ReadExact { reply: Ok(data), .. } => {
                assert(session_laws::received(t) == got + data);
                if data.len() == 1 {
                    assert(data =~= seq![data[0]]);
                }
            },
            _ => {
                assert(session_laws::received(t) == got);
            },
        }
        match before {
            RawPasteState::Answer => {
                assert(t[1] == x);
            },
            RawPasteState::Resync => {
                assert(t[1] == p[1]);
            },
            RawPasteState::Abort => {
                assert(t[t.len() - 2] == p.last());
            },
            RawPasteState::Ack => {
                assert(t[t.len() - 2] == p.last());
            },
            _ => {},
        }
    }
}

/// Raw paste fails only for a reason that the record shows.
pub proof fn law_raw_paste_fails_for_a_reason(
    pre: SessionView,
    code: Seq<u8>,
    post: SessionView,
    e: ErrorView,
)
    requires
        session::raw_pastes(pre, code, post, Err(e)),
    ensures
        session_laws::since(pre, post).len() > 0,
        raw_paste_reason(session_laws::since(pre, post), e),
{
    lemma_raw_paste_shape(
        code,
        pre.timeout_ms,
        session_laws::since(pre, post),
        RawPasteState::Done(Err(e)),
    );
}

/// Whether an exchange is the answer to a submission in raw mode, and is not `OK`.
pub open spec fn not_ok(x: Exchange) -> bool {
    x matches Exchange::ReadExact { reply: Ok(data), .. } && data != seq![0x4fu8, 0x4bu8]
}

/// Whether a record ends with a reason for a submission in raw mode to fail.
pub open spec fn raw_reason(t: Seq<Exchange>, e: ErrorView) -> bool {
    failed_with(t.last(), e) || (not_ok(t.last()) && e is Protocol)
}

proof fn lemma_raw_shape(code: Seq<u8>, timeout_ms: nat, t: Seq<Exchange>, s: RawState)
    requires
        connection::run(
            session::raw_sending(code.len(), 0),
            session::raw_step(code, timeout_ms),
            t,
        ) == Some(s),
    ensures
        s matches RawState::Done(r) ==> t.len() > 0 && match r {
            Ok(_) => gave(t.last(), seq![0x4fu8, 0x4bu8]),
            Err(e) => raw_reason(t, e),
        },
{
}

/// A submission in raw mode succeeds exactly when the device answers `OK`. It fails
/// only with the error of its last exchange, or for another answer.
pub proof fn law_raw_mode_fails_for_a_reason(
    pre: SessionView,
    code: Seq<u8>,
    post: SessionView,
    r: Result<(), ErrorView>,
)
    requires
        session::sends_raw(pre, code, post, r),
    ensures
        session_laws::since(pre, post).len() > 0,
        match r {
            Ok(_) => gave(post.record.last(), seq![0x4fu8, 0x4bu8]),
            Err(e) => raw_reason(post.record, e),
        },
{
    let t = session_laws::since(pre, post);
    lemma_raw_shape(code, pre.timeout_ms, t, RawState::Done(r));
    assert(t.last() == post.record.last());
}

/// A submission in paste mode fails only with the error of its last exchange.
pub proof fn law_paste_mode_fails_for_a_reason(
    pre: SessionView,
    code: Seq<u8>,
    post: SessionView,
    e: ErrorView,
)
    requires
        session::pastes(pre, code, post, Err(e)),
    ensures
        session_laws::since(pre, post).len() > 0,
        failed_with(post.record.last(), e),
{
    let t = session_laws::since(pre, post);
    assert(connection::run(
        PasteState::Open,
        session::paste_step(code, pre.timeout_ms),
        t,
    ) == Some(PasteState::Done(Err(e))));
    assert(t.len() > 0);
    assert(t.last() == post.record.last());
}

/// Code is submitted whatever becomes of raw paste: a submission fails only with the
/// error of its last exchange, or because raw mode was not answered with `OK`. A
/// device that does not do raw paste is served in raw mode.
pub proof fn law_submission_fails_for_a_reason(
    pre: SessionView,
    code: Seq<u8>,
    post: SessionView,
    e: ErrorView,
)
    requires
        session::submits(pre, code, post, Err(e)),
    ensures
        post.record.len() > 0,
        raw_reason(post.record, e),
{
    if pre.submit_mode == SubmitMode::Paste {
        law_paste_mode_fails_for_a_reason(pre, code, post, e);
    } else if pre.submit_mode == SubmitMode::RawPaste && pre.use_raw_paste {
        let (mid, first) = choose|mid: SessionView, first: Result<(), ErrorView>| #[trigger]
            session::raw_pastes(pre, code, mid, first) && match first {
                Ok(_) => post == mid && Err::<(), ErrorView>(e) is Ok,
                Err(_) => session::falls_back(mid.without_raw_paste(), code, post, Err(e)),
            };
        lemma_fallback_reason(mid.without_raw_paste(), code, post, e);
    } else {
        law_raw_mode_fails_for_a_reason(pre, code, post, Err(e));
    }
}

proof fn lemma_fallback_reason(
    pre: SessionView,
    code: Seq<u8>,
    post: SessionView,
    e: ErrorView,
)
    requires
        session::falls_back(pre, code, post, Err(e)),
    ensures
        post.record.len() > 0,
        raw_reason(post.record, e),
{
    let (a, ra) = choose|a: SessionView, ra: Result<(), ErrorView>| #[trigger]
        session::exits(pre, a, ra) && match ra {
            Err(x) => post == a && Err::<(), ErrorView>(e) == Err::<(), ErrorView>(x),
            Ok(_) => exists|b: SessionView, rb: Result<(), ErrorView>| #[trigger]
                session::enters(a, false, b, rb) && match rb {
                    Err(x) => post == b && Err::<(), ErrorView>(e) == Err::<(), ErrorView>(x),
                    Ok(_) => session::sends_raw(b, code, post, Err(e)),
                },
        };
    law_leaving_sends_ctrl_b(pre, a, ra);
    if ra is Ok {
        let (b, rb) = choose|b: SessionView, rb: Result<(), ErrorView>| #[trigger]
            session::enters(a, false, b, rb) && match rb {
                Err(x) => post == b && Err::<(), ErrorView>(e) == Err::<(), ErrorView>(x),
                Ok(_) => session::sends_raw(b, code, post, Err(e)),
            };
        if rb is Ok {
            law_raw_mode_fails_for_a_reason(b, code, post, Err(e));
        } else {
            law_entering_fails_for_a_reason(a, false, b, e);
        }
    }
}

// ---------------------------------------------------------------------------
// Executing code
// ---------------------------------------------------------------------------

/// Whether a record ends with a reason for an execution to fail: that of a submission,
/// or the clock after a timeout of thirty seconds.
pub open spec fn execution_reason(record: Seq<Exchange>, e: ErrorView) -> bool {
    raw_reason(record, e) || (e is Timeout && record.last() is Clock)
}

/// Executing code fails only for a reason that the record shows: the error of the last
/// exchange, an answer other than `OK` in raw mode, or no end of the output in time.
/// Error output is no such reason.
pub proof fn law_execution_fails_for_a_reason(
    pre: SessionView,
    code: Seq<u8>,
    post: SessionView,
    e: ErrorView,
)
    requires
        session::executes(pre, code, post, Err(e)),
    ensures
        post.record.len() > 0,
        execution_reason(post.record, e),
{
    let (a, ra) = choose|a: SessionView, ra: Result<(), ErrorView>| #[trigger]
        session::enters(pre, false, a, ra) && match ra {
            Err(x) => post == a && Err::<Output, ErrorView>(e) == Err::<Output, ErrorView>(x),
            Ok(_) => session::executes_entered(a, code, post, Err(e)),
        };
    if ra is Err {
        law_entering_fails_for_a_reason(pre, false, a, e);
    } else {
        let (b, rb) = choose|b: SessionView, rb: Result<(), ErrorView>| #[trigger]
            session::submits(a, code, b, rb) && match rb {
                Err(x) => post == b && Err::<Output, ErrorView>(e) == Err::<Output, ErrorView>(x),
                Ok(_) => session::executes_submitted(b, post, Err(e)),
            };
        if rb is Err {
            law_submission_fails_for_a_reason(a, code, b, e);
        } else {
            lemma_collecting_reason(b, post, e);
        }
    }
}

proof fn lemma_collecting_reason(pre: SessionView, post: SessionView, e: ErrorView)
    requires
        session::executes_submitted(pre, post, Err(e)),
    ensures
        post.record.len() > 0,
        execution_reason(post.record, e),
{
    let (c, rc) = choose|c: SessionView, rc: Result<Output, ErrorView>| #[trigger]
        session::follows(pre, 30_000, c, rc) && match rc {
            Err(x) => post == c && Err::<Output, ErrorView>(e) == Err::<Output, ErrorView>(x),
            Ok(out) => exists|rd: Result<(), ErrorView>| #[trigger]
                session::exits(c, post, rd) && Err::<Output, ErrorView>(e) == (match rd {
                    Ok(_) => Ok::<Output, ErrorView>(out),
                    Err(x) => Err(x),
                }),
        };
    if rc is Err {
        law_follow_fails_for_a_reason(pre, 30_000, c, e);
        assert(session_laws::since(pre, c).last() == c.record.last());
    } else {
        let out = rc->Ok_0;
        let rd = choose|rd: Result<(), ErrorView>| #[trigger]
            session::exits(c, post, rd) && Err::<Output, ErrorView>(e) == (match rd {
                Ok(_) => Ok::<Output, ErrorView>(out),
                Err(x) => Err(x),
            });
        law_leaving_sends_ctrl_b(c, post, rd);
    }
}

/// An execution is given up only after thirty seconds: where collecting its output ran
/// out of time, so much time has passed on the clock since collecting began.
pub proof fn law_execution_has_thirty_seconds(
    pre: SessionView,
    post: SessionView,
    e: ErrorView,
)
    requires
        session::executes_submitted(pre, post, Err(e)),
        e is Timeout,
        post.record.last() is Clock,
    ensures
        ({
            let t = session_laws::since(pre, post);
            &&& t.len() > 1
            &&& t[0] is Clock
            &&& t.last()->shows >= t[0]->shows + 30_000 || t.last()->shows >= u64::MAX
        }),
{
    let (c, rc) = choose|c: SessionView, rc: Result<Output, ErrorView>| #[trigger]
        session::follows(pre, 30_000, c, rc) && match rc {
            Err(x) => post == c && Err::<Output, ErrorView>(e) == Err::<Output, ErrorView>(x),
            Ok(out) => exists|rd: Result<(), ErrorView>| #[trigger]
                session::exits(c, post, rd) && Err::<Output, ErrorView>(e) == (match rd {
                    Ok(_) => Ok::<Output, ErrorView>(out),
                    Err(x) => Err(x),
                }),
        };
    if rc is Err {
        law_follow_fails_for_a_reason(pre, 30_000, c, e);
        assert(session_laws::since(pre, c).last() == c.record.last());
    } else {
        let out = rc->Ok_0;
        let rd = choose|rd: Result<(), ErrorView>| #[trigger]
            session::exits(c, post, rd) && Err::<Output, ErrorView>(e) == (match rd {
                Ok(_) => Ok::<Output, ErrorView>(out),
                Err(x) => Err(x),
            });
        law_leaving_sends_ctrl_b(c, post, rd);
    }
}

// ---------------------------------------------------------------------------
// The bytes of the protocol
// ---------------------------------------------------------------------------

/// Raw paste sends CTRL-E `A` CTRL-A, the code and CTRL-D; raw mode the code and
/// CTRL-D; paste mode CTRL-E, the code and CTRL-D.
pub proof fn law_submissions_send_these_bytes(pre: SessionView, code: Seq<u8>, post: SessionView)
    ensures
        session::raw_pastes(pre, code, post, Ok(())) ==> connection::written(
            session_laws::since(pre, post),
        ) == seq![5u8, 0x41u8, 1u8] + code + seq![4u8],
        session::sends_raw(pre, code, post, Ok(())) ==> connection::written(
            session_laws::since(pre, post),
        ) == code + seq![4u8],
        session::pastes(pre, code, post, Ok(())) ==> connection::written(
            session_laws::since(pre, post),
        ) == seq![5u8] + code + seq![4u8],
{
    if session::raw_pastes(pre, code, post, Ok(())) {
        session_laws::law_raw_paste_sends_the_code(pre, code, post);
    }
    if session::sends_raw(pre, code, post, Ok(())) {
        session_laws::law_raw_mode_sends_the_code(pre, code, post);
    }
    if session::pastes(pre, code, post, Ok(())) {
        session_laws::law_paste_mode_sends_the_code(pre, code, post);
    }
}

/// What the window of a raw paste is in each of its states: that of the third
/// exchange, low byte first.
spec fn window_shape(s: RawPasteState, t: Seq<Exchange>) -> bool {
    match s {
        RawPasteState::Ask => t.len() == 0,
        RawPasteState::Answer => t.len() == 1,
        RawPasteState::Resync | RawPasteState::WindowSize => t.len() == 2,
        RawPasteState::Peek { window } | RawPasteState::Extra { window } => t.len() > 2 && is_window(
            t[2],
            window,
        ),
        RawPasteState::Poll(f) | RawPasteState::Control(f) | RawPasteState::Send(f) => t.len() > 2
            && is_window(t[2], f.window),
        RawPasteState::Finish | RawPasteState::Abort | RawPasteState::Ack => t.len() > 2,
        RawPasteState::Done(_) => true,
    }
}

/// Whether an exchange gave two bytes that stand for a number, low byte first.
pub open spec fn is_window(x: Exchange, n: nat) -> bool {
    x matches Exchange::ReadExact { reply: Ok(data), .. } && data.len() == 2 && n == data[0] + 256
        * data[1]
}

#[verifier::spinoff_prover]
proof fn lemma_window_shape(
    code: Seq<u8>,
    timeout_ms: nat,
    t: Seq<Exchange>,
    s: RawPasteState,
)
    requires
        connection::run(RawPasteState::Ask, session::raw_paste_step(code, timeout_ms), t) == Some(
            s,
        ),
    ensures
        window_shape(s, t),
    decreases t.len(),
{
    let step = session::raw_paste_step(code, timeout_ms);
    if t.len() > 0 {
        let p = t.drop_last();
        let before = connection::run(RawPasteState::Ask, step, p)->0;
        lemma_window_shape(code, timeout_ms, p, before);
        if p.len() > 2 {
            assert(p[2] == t[2]);
        } else if p.len() == 2 {
            assert(t[2] == t.last());
        }
    }
}

/// While raw paste sends code, its window is the number that the device has sent in
/// its third exchange, low byte first; and it has sent no more of the code than this
/// window, and as much again for each grant.
pub proof fn law_raw_paste_minds_the_window(
    pre: SessionView,
    code: Seq<u8>,
    post: SessionView,
    f: session::Flow,
)
    requires
        session::raw_pasting(pre, code, post, RawPasteState::Send(f)),
    ensures
        ({
            let t = session_laws::since(pre, post);
            &&& t.len() > 2
            &&& is_window(t[2], f.window)
            &&& f.grants <= session_laws::received(t).len()
            &&& f.sent + f.left == f.window * (f.grants + 1)
            &&& f.sent <= code.len()
            &&& connection::written(t) == seq![5u8, 0x41u8, 1u8] + code.take(f.sent as int)
        }),
{
    let t = session_laws::since(pre, post);
    lemma_window_shape(code, pre.timeout_ms, t, RawPasteState::Send(f));
    lemma_raw_paste_shape(code, pre.timeout_ms, t, RawPasteState::Send(f));
    session_laws::lemma_raw_paste_progress(code, pre.timeout_ms, t, RawPasteState::Send(f));
}

// ---------------------------------------------------------------------------
// The output of an execution
// ---------------------------------------------------------------------------

proof fn lemma_received_concat(a: Seq<Exchange>, b: Seq<Exchange>)
    ensures
        session_laws::received(a + b) == session_laws::received(a) + session_laws::received(b),
    decreases b.len(),
{
    if b.len() == 0 {
        assert(a + b =~= a);
        assert(session_laws::received(a) + session_laws::received(b) =~= session_laws::received(a));
    } else {
        lemma_received_concat(a, b.drop_last());
        assert((a + b).drop_last() =~= a + b.drop_last());
        assert((a + b).last() == b.last());
        match b.last() {
            Exchange::ReadExact { reply: Ok(data), .. } => {
                assert(session_laws::received(a) + session_laws::received(b.drop_last()) + data
                    =~= session_laws::received(a) + (session_laws::received(b.drop_last())
                    + data));
            },
            _ => {},
        }
    }
}

proof fn lemma_received_through(a: SessionView, b: SessionView, c: SessionView)
    requires
        session_laws::continues(a, b),
        session_laws::continues(b, c),
    ensures
        session_laws::continues(a, c),
        session_laws::received(session_laws::since(a, c)) == session_laws::received(
            session_laws::since(a, b),
        ) + session_laws::received(session_laws::since(b, c)),
{
    assert(c.record.take(a.record.len() as int) =~= a.record) by {
        assert(c.record.take(b.record.len() as int) == b.record);
        assert(b.record.take(a.record.len() as int) == a.record);
    }
    assert(session_laws::since(a, c) =~= session_laws::since(a, b) + session_laws::since(b, c))
        by {
        assert(c.record.take(b.record.len() as int) == b.record);
    }
    lemma_received_concat(session_laws::since(a, b), session_laws::since(b, c));
}

proof fn lemma_leaving_reads_nothing(pre: SessionView, post: SessionView)
    requires
        session::exits(pre, post, Ok(())),
    ensures
        session_laws::continues(pre, post),
        session_laws::received(session_laws::since(pre, post)) == Seq::<u8>::empty(),
{
    let t = session_laws::since(pre, post);
    let a = Exchange::Write { data: seq![13u8], status: Ok::<(), ErrorView>(()) };
    let b = Exchange::Write { data: seq![2u8], status: Ok::<(), ErrorView>(()) };
    assert(post.record =~= pre.record.push(a).push(b));
    assert(t =~= seq![a, b]);
    assert(t.drop_last() =~= seq![a]);
    assert(seq![a].drop_last().len() == 0);
    assert(session_laws::received(seq![a].drop_last()) == Seq::<u8>::empty());
    assert(seq![a].last() == a);
    assert(session_laws::received(seq![a]) == Seq::<u8>::empty());
    assert(t.last() == b);
}

/// Whether bytes are standard output and error output, each with CTRL-D behind it and
/// none inside.
pub open spec fn tells(bytes: Seq<u8>, out: Output) -> bool {
    &&& bytes == out.stdout + seq![4u8] + out.stderr + seq![4u8]
    &&& !out.stdout.contains(4)
    &&& !out.stderr.contains(4)
}

/// Whether bytes end with what acknowledges a submission: CTRL-D, or `OK`.
pub open spec fn acknowledges(s: Seq<u8>) -> bool {
    ||| s.len() > 0 && s.last() == 4
    ||| s.len() > 1 && s[s.len() - 2] == 0x4f && s.last() == 0x4b
}

/// Whether the bytes that a device sent end with the output of code: first comes the
/// acknowledgement of the submission, then the output.
pub open spec fn ends_with_output(bytes: Seq<u8>, out: Output, acknowledged: bool) -> bool {
    exists|head: Seq<u8>, tail: Seq<u8>|
        bytes == #[trigger] (head + tail) && tells(tail, out) && (acknowledged ==> acknowledges(
            head,
        ))
}

proof fn lemma_paste_ack(code: Seq<u8>, timeout_ms: nat, t: Seq<Exchange>)
    requires
        connection::run(RawPasteState::Ask, session::raw_paste_step(code, timeout_ms), t) == Some(
            RawPasteState::Done(Ok(())),
        ),
    ensures
        t.len() > 0,
        gave(t.last(), seq![4u8]),
{
    let p = t.drop_last();
    let before = connection::run(
        RawPasteState::Ask,
        session::raw_paste_step(code, timeout_ms),
        p,
    )->0;
    let x = t.last();
    match x {
        Exchange::ReadExact { reply: Ok(data), .. } => {
            if data.len() == 1 {
                assert(data =~= seq![data[0]]);
            }
        },
        _ => {},
    }
}

proof fn lemma_acknowledged(t: Seq<Exchange>)
    requires
        t.len() > 0,
        gave(t.last(), seq![4u8]) || gave(t.last(), seq![0x4fu8, 0x4bu8]),
    ensures
        acknowledges(session_laws::received(t)),
{
    let got = session_laws::received(t.drop_last());
    let data = t.last()->ReadExact_reply->Ok_0;
    assert(session_laws::received(t) == got + data);
}

proof fn lemma_submission_ack(pre: SessionView, code: Seq<u8>, post: SessionView)
    requires
        session::submits(pre, code, post, Ok(())),
        pre.submit_mode != SubmitMode::Paste,
    ensures
        session_laws::continues(pre, post),
        session_laws::since(pre, post).len() > 0,
        gave(post.record.last(), seq![4u8]) || gave(post.record.last(), seq![0x4fu8, 0x4bu8]),
{
    session_laws::law_submission_sends_the_code(pre, code, post);
    if pre.submit_mode == SubmitMode::RawPaste && pre.use_raw_paste {
        let (mid, first) = choose|mid: SessionView, first: Result<(), ErrorView>| #[trigger]
            session::raw_pastes(pre, code, mid, first) && match first {
                Ok(_) => post == mid,
                Err(_) => session::falls_back(mid.without_raw_paste(), code, post, Ok(())),
            };
        if first is Ok {
            let t = session_laws::since(pre, post);
            lemma_paste_ack(code, pre.timeout_ms, t);
            assert(t.last() == post.record.last());
        } else {
            let start = mid.without_raw_paste();
            let (a, ra) = choose|a: SessionView, ra: Result<(), ErrorView>| #[trigger]
                session::exits(start, a, ra) && match ra {
                    Err(e) => false,
                    Ok(_) => exists|b: SessionView, rb: Result<(), ErrorView>| #[trigger]
                        session::enters(a, false, b, rb) && match rb {
                            Err(e) => false,
                            Ok(_) => session::sends_raw(b, code, post, Ok(())),
                        },
                };
            let (b, rb) = choose|b: SessionView, rb: Result<(), ErrorView>| #[trigger]
                session::enters(a, false, b, rb) && match rb {
                    Err(e) => false,
                    Ok(_) => session::sends_raw(b, code, post, Ok(())),
                };
            law_raw_mode_fails_for_a_reason(b, code, post, Ok(()));
            lemma_leaving_reads_nothing(start, a);
            assert(session_laws::continues(pre, start));
            lemma_received_through(pre, start, a);
            lemma_received_through(pre, a, b);
        }
    } else {
        law_raw_mode_fails_for_a_reason(pre, code, post, Ok(()));
    }
}

/// When executing code succeeds, the result is what the device has sent behind the
/// acknowledgement of the code: standard output up to CTRL-D, and error output up to
/// the next one, whole and unchanged.
pub proof fn law_execution_gives_the_output(
    pre: SessionView,
    code: Seq<u8>,
    post: SessionView,
    out: Output,
)
    requires
        session::executes(pre, code, post, Ok(out)),
    ensures
        session_laws::continues(pre, post),
        ends_with_output(
            session_laws::received(session_laws::since(pre, post)),
            out,
            pre.submit_mode != SubmitMode::Paste,
        ),
{
    let (a, ra) = choose|a: SessionView, ra: Result<(), ErrorView>| #[trigger]
        session::enters(pre, false, a, ra) && match ra {
            Err(e) => false,
            Ok(_) => session::executes_entered(a, code, post, Ok(out)),
        };
    let (b, rb) = choose|b: SessionView, rb: Result<(), ErrorView>| #[trigger]
        session::submits(a, code, b, rb) && match rb {
            Err(e) => false,
            Ok(_) => session::executes_submitted(b, post, Ok(out)),
        };
    session_laws::law_submission_sends_the_code(a, code, b);
    let (c, rc) = choose|c: SessionView, rc: Result<Output, ErrorView>| #[trigger]
        session::follows(b, 30_000, c, rc) && match rc {
            Err(e) => false,
            Ok(o) => exists|rd: Result<(), ErrorView>| #[trigger]
                session::exits(c, post, rd) && Ok::<Output, ErrorView>(out) == (match rd {
                    Ok(_) => Ok::<Output, ErrorView>(o),
                    Err(e) => Err(e),
                }),
        };
    session_laws::law_follow_splits_the_output(b, 30_000, c, out);
    lemma_leaving_reads_nothing(c, post);
    lemma_received_through(pre, a, b);
    lemma_received_through(pre, b, c);
    lemma_received_through(pre, c, post);
    let head = session_laws::received(session_laws::since(pre, b));
    let tail = session_laws::received(session_laws::since(b, c));
    assert(head + tail + Seq::<u8>::empty() =~= head + tail);
    if pre.submit_mode != SubmitMode::Paste {
        lemma_submission_ack(a, code, b);
        let t = session_laws::since(pre, b);
        assert(t.last() == b.record.last());
        lemma_acknowledged(t);
    }
    assert(session_laws::received(session_laws::since(pre, post)) == head + tail);
    assert(tells(tail, out));
}

/// Whether the bytes that a device sent are those of a batch: for each code the
/// acknowledgement of its submission, its output, and at most the prompt behind it.
pub open spec fn tells_all(bytes: Seq<u8>, outs: Seq<Output>) -> bool
    decreases outs.len(),
{
    if outs.len() == 0 {
        bytes.len() == 0
    } else {
        exists|a: Seq<u8>, b: Seq<u8>|
            bytes == #[trigger] (a + b) && tells_all(a, outs.drop_last()) && tells_one(
                b,
                outs.last(),
            )
    }
}

/// What `tells_all` says for one code.
pub open spec fn tells_one(bytes: Seq<u8>, out: Output) -> bool {
    exists|a: Seq<u8>, prompt: Seq<u8>|
        bytes == #[trigger] (a + prompt) && prompt.len() <= 1 && ends_with_output(a, out, true)
}

proof fn lemma_batch_step_tells(
    pre: SessionView,
    code: Seq<u8>,
    post: SessionView,
    out: Output,
)
    requires
        session::batch_step(pre, code, post, Ok(out)),
    ensures
        session_laws::continues(pre, post),
        tells_one(session_laws::received(session_laws::since(pre, post)), out),
{
    let (a, ra) = choose|a: SessionView, ra: Result<(), ErrorView>| #[trigger]
        session::raw_pastes(pre, code, a, ra) && match ra {
            Err(e) => false,
            Ok(_) => session::batch_step_submitted(a, post, Ok(out)),
        };
    let (b, rb) = choose|b: SessionView, rb: Result<Output, ErrorView>| #[trigger]
        session::follows(a, 30_000, b, rb) && match rb {
            Err(e) => false,
            Ok(o) => {
                &&& post.record.len() > 0
                &&& post == b.then_exchange(post.record.last())
                &&& post.record.last().exact(1, 200) is Some
                &&& o == out
            },
        };
    session_laws::law_follow_splits_the_output(a, 30_000, b, out);
    let t = session_laws::since(pre, a);
    lemma_paste_ack(code, pre.timeout_ms, t);
    lemma_acknowledged(t);
    lemma_received_through(pre, a, b);
    let head = session_laws::received(t);
    let tail = session_laws::received(session_laws::since(a, b));
    assert(tells(tail, out));
    assert(ends_with_output(head + tail, out, true));
    let last = session_laws::since(b, post);
    assert(last =~= seq![post.record.last()]);
    assert(last.drop_last().len() == 0);
    assert(session_laws::received(last.drop_last()) == Seq::<u8>::empty());
    let prompt = session_laws::received(last);
    assert(session_laws::continues(b, post));
    lemma_received_through(pre, b, post);
    assert(prompt.len() <= 1);
    assert(session_laws::received(session_laws::since(pre, post)) == (head + tail) + prompt);
}

proof fn lemma_batch_tells(
    pre: SessionView,
    codes: Seq<Seq<u8>>,
    post: SessionView,
    outs: Seq<Output>,
)
    requires
        session::batch_steps(pre, codes, post, Ok(outs)),
    ensures
        session_laws::continues(pre, post),
        outs.len() == codes.len(),
        tells_all(session_laws::received(session_laws::since(pre, post)), outs),
    decreases codes.len(),
{
    if codes.len() == 0 {
        assert(session_laws::since(pre, post).len() == 0);
    } else {
        let r = Ok::<Seq<Output>, ErrorView>(outs);
        let (m, rm) = choose|m: SessionView, rm: Result<Seq<Output>, ErrorView>|
            session::batch_steps(pre, codes.drop_last(), m, rm) && #[trigger]
            session::batch_goes_on(m, rm, codes.last(), post, r);
        let done = rm->Ok_0;
        lemma_batch_tells(pre, codes.drop_last(), m, done);
        let ro = choose|ro: Result<Output, ErrorView>| #[trigger]
            session::batch_step(m, codes.last(), post, ro) && r == (match ro {
                Ok(out) => Ok::<Seq<Output>, ErrorView>(done.push(out)),
                Err(e) => Err(e),
            });
        lemma_batch_step_tells(m, codes.last(), post, ro->Ok_0);
        lemma_received_through(pre, m, post);
        assert(outs.drop_last() =~= done);
    }
}

/// When a batch succeeds, each code has its own output, in order: what the device has
/// sent behind the acknowledgement of the code, whole and unchanged.
pub proof fn law_batch_gives_the_outputs(
    pre: SessionView,
    codes: Seq<Seq<u8>>,
    post: SessionView,
    outs: Seq<Output>,
)
    requires
        session::executes_batch(pre, codes, post, Ok(outs)),
    ensures
        outs.len() == codes.len(),
        exists|a: SessionView|
            #![trigger session_laws::since(a, post)]
            session_laws::continues(pre, a) && session_laws::continues(a, post) && tells_all(
                session_laws::received(session_laws::since(a, post)),
                outs,
            ),
{
    let r = Ok::<Seq<Output>, ErrorView>(outs);
    let (a, ra) = choose|a: SessionView, ra: Result<(), ErrorView>| #[trigger]
        session::enters(pre, false, a, ra) && match ra {
            Err(e) => false,
            Ok(_) => session::executes_batch_entered(a, codes, post, r),
        };
    let (b, rb) = choose|b: SessionView, rb: Result<Seq<Output>, ErrorView>| #[trigger]
        session::batch_steps(a, codes, b, rb) && match rb {
            Err(e) => false,
            Ok(done) => exists|rd: Result<(), ErrorView>| #[trigger]
                session::exits(b, post, rd) && r == (match rd {
                    Ok(_) => Ok::<Seq<Output>, ErrorView>(done),
                    Err(e) => Err(e),
                }),
        };
    lemma_batch_tells(a, codes, b, rb->Ok_0);
    lemma_leaving_reads_nothing(b, post);
    lemma_received_through(a, b, post);
    let got = session_laws::received(session_laws::since(a, b));
    assert(got + Seq::<u8>::empty() =~= got);
    assert(tells_all(session_laws::received(session_laws::since(a, post)), outs));
}

/// Whether a record ends with a reason for a batch to fail: one of raw paste, or one
/// of an execution. In a batch raw paste is not replaced by raw mode.
pub open spec fn batch_reason(pre: SessionView, post: SessionView, e: ErrorView) -> bool {
    ||| execution_reason(post.record, e)
    ||| exists|a: SessionView|
        #![trigger session_laws::since(a, post)]
        session_laws::continues(pre, a) && raw_paste_reason(session_laws::since(a, post), e)
}

proof fn lemma_batch_reason(
    pre: SessionView,
    codes: Seq<Seq<u8>>,
    post: SessionView,
    e: ErrorView,
)
    requires
        session::batch_steps(pre, codes, post, Err(e)),
    ensures
        batch_reason(pre, post, e),
    decreases codes.len(),
{
    if codes.len() > 0 {
        let r = Err::<Seq<Output>, ErrorView>(e);
        let (m, rm) = choose|m: SessionView, rm: Result<Seq<Output>, ErrorView>|
            session::batch_steps(pre, codes.drop_last(), m, rm) && #[trigger]
            session::batch_goes_on(m, rm, codes.last(), post, r);
        if rm is Err {
            lemma_batch_reason(pre, codes.drop_last(), m, e);
        } else {
            let done = rm->Ok_0;
            lemma_batch_tells(pre, codes.drop_last(), m, done);
            let ro = choose|ro: Result<Output, ErrorView>| #[trigger]
                session::batch_step(m, codes.last(), post, ro) && r == (match ro {
                    Ok(out) => Ok::<Seq<Output>, ErrorView>(done.push(out)),
                    Err(x) => Err(x),
                });
            let (a, ra) = choose|a: SessionView, ra: Result<(), ErrorView>| #[trigger]
                session::raw_pastes(m, codes.last(), a, ra) && match ra {
                    Err(x) => post == a && ro == Err::<Output, ErrorView>(x),
                    Ok(_) => session::batch_step_submitted(a, post, ro),
                };
            if ra is Err {
                law_raw_paste_fails_for_a_reason(m, codes.last(), a, e);
                assert(raw_paste_reason(session_laws::since(m, post), e));
            } else {
                let (b, rb) = choose|b: SessionView, rb: Result<Output, ErrorView>| #[trigger]
                    session::follows(a, 30_000, b, rb) && match rb {
                        Err(x) => post == b && ro == Err::<Output, ErrorView>(x),
                        Ok(out) => {
                            &&& post.record.len() > 0
                            &&& post == b.then_exchange(post.record.last())
                            &&& post.record.last().exact(1, 200) is Some
                            &&& ro == Ok::<Output, ErrorView>(out)
                        },
                    };
                law_follow_fails_for_a_reason(a, 30_000, b, e);
                assert(session_laws::since(a, b).last() == b.record.last());
            }
        }
    }
}

/// A batch fails only for a reason that the record shows.
pub proof fn law_batch_fails_for_a_reason(
    pre: SessionView,
    codes: Seq<Seq<u8>>,
    post: SessionView,
    e: ErrorView,
)
    requires
        session::executes_batch(pre, codes, post, Err(e)),
    ensures
        batch_reason(pre, post, e),
{
    let r = Err::<Seq<Output>, ErrorView>(e);
    let (a, ra) = choose|a: SessionView, ra: Result<(), ErrorView>| #[trigger]
        session::enters(pre, false, a, ra) && match ra {
            Err(x) => post == a && r == Err::<Seq<Output>, ErrorView>(x),
            Ok(_) => session::executes_batch_entered(a, codes, post, r),
        };
    if ra is Err {
        law_entering_fails_for_a_reason(pre, false, a, e);
    } else {
        let (b, rb) = choose|b: SessionView, rb: Result<Seq<Output>, ErrorView>| #[trigger]
            session::batch_steps(a, codes, b, rb) && match rb {
                Err(x) => post == b && r == rb,
                Ok(outs) => exists|rd: Result<(), ErrorView>| #[trigger]
                    session::exits(b, post, rd) && r == (match rd {
                        Ok(_) => Ok::<Seq<Output>, ErrorView>(outs),
                        Err(x) => Err(x),
                    }),
            };
        if rb is Err {
            lemma_batch_reason(a, codes, post, e);
            if !execution_reason(post.record, e) {
                let c = choose|c: SessionView|
                    #![trigger session_laws::since(c, post)]
                    session_laws::continues(a, c) && raw_paste_reason(
                        session_laws::since(c, post),
                        e,
                    );
                lemma_received_through(pre, a, c);
                assert(raw_paste_reason(session_laws::since(c, post), e));
            }
        } else {
            let outs = rb->Ok_0;
            let rd = choose|rd: Result<(), ErrorView>| #[trigger]
                session::exits(b, post, rd) && r == (match rd {
                    Ok(_) => Ok::<Seq<Output>, ErrorView>(outs),
                    Err(x) => Err(x),
                });
            law_leaving_sends_ctrl_b(b, post, rd);
        }
    }
}

// ---------------------------------------------------------------------------
// What a device answers to the request for raw paste
// ---------------------------------------------------------------------------

spec fn answer_shape(s: RawPasteState, t: Seq<Exchange>) -> bool {
    let rejected = seq![0x52u8, 0u8];
    let supported = seq![0x52u8, 1u8];
    match s {
        RawPasteState::Ask => t.len() == 0,
        RawPasteState::Answer => t.len() == 1,
        RawPasteState::Resync => t.len() == 2 && t[1] is ReadExact && !gave(t[1], rejected)
            && !gave(t[1], supported),
        RawPasteState::Done(r) => {
            ||| t.len() <= 2 && r is Err && (t.len() == 2 ==> !gave(t[1], supported))
                && (t.len() == 2 && gave(t[1], rejected) ==> r == Err::<(), ErrorView>(
                ErrorView::Protocol("device rejected raw-paste"@),
            )) && (t.len() == 2 && !gave(t[1], rejected) ==> failed_with(t[1], r->Err_0))
            ||| t.len() == 3 && t[1] is ReadExact && !gave(t[1], rejected) && !gave(
                t[1],
                supported,
            ) && t[2] is ReadUntil && r == Err::<(), ErrorView>(
                ErrorView::Protocol("device does not support raw-paste"@),
            )
            ||| t.len() > 2 && gave(t[1], supported) && t[2] is ReadExact
        },
        RawPasteState::WindowSize => t.len() == 2 && gave(t[1], supported),
        _ => t.len() > 2 && gave(t[1], supported) && t[2] is ReadExact,
    }
}

#[verifier::spinoff_prover]
proof fn lemma_answer_shape(code: Seq<u8>, timeout_ms: nat, t: Seq<Exchange>, s: RawPasteState)
    requires
        connection::run(
            RawPasteState::Ask,
            session::raw_paste_step(code, timeout_ms),
            t,
        ) == Some(s),
    ensures
        answer_shape(s, t),
    decreases t.len(),
{
    let step = session::raw_paste_step(code, timeout_ms);
    assert(seq![0x52u8, 0u8][1] != seq![0x52u8, 1u8][1]);
    if t.len() > 0 {
        let p = t.drop_last();
        let before = connection::run(RawPasteState::Ask, step, p)->0;
        lemma_answer_shape(code, timeout_ms, p, before);
        if p.len() > 1 {
            assert(t[1] == p[1]);
        }
        if p.len() > 2 {
            assert(t[2] == p[2]);
        }
    }
}

/// Raw paste goes by the answer of the device: one that rejects it ends it at once, one
/// that does it is asked for its window, and for any other answer the prompt is looked
/// for. The errors say which of these it was.
pub proof fn law_raw_paste_goes_by_the_answer(
    pre: SessionView,
    code: Seq<u8>,
    post: SessionView,
    r: Result<(), ErrorView>,
    answer: Seq<u8>,
)
    requires
        session::raw_pastes(pre, code, post, r),
        session_laws::since(pre, post).len() >= 2,
        gave(session_laws::since(pre, post)[1], answer),
    ensures
        ({
            let t = session_laws::since(pre, post);
            &&& answer == seq![0x52u8, 0u8] ==> t.len() == 2 && r == Err::<(), ErrorView>(
                ErrorView::Protocol("device rejected raw-paste"@),
            )
            &&& answer == seq![0x52u8, 1u8] ==> t.len() > 2 && t[2] is ReadExact
            &&& answer != seq![0x52u8, 0u8] && answer != seq![0x52u8, 1u8] ==> t.len() == 3
                && t[2] is ReadUntil && r == Err::<(), ErrorView>(
                ErrorView::Protocol("device does not support raw-paste"@),
            )
        }),
{
    lemma_answer_shape(
        code,
        pre.timeout_ms,
        session_laws::since(pre, post),
        RawPasteState::Done(r),
    );
    assert(seq![0x52u8, 0u8][1] != seq![0x52u8, 1u8][1]);
}

// ---------------------------------------------------------------------------
// The settings of a session
// ---------------------------------------------------------------------------

/// A session submits in the mode that it was set to: paste mode in paste mode, and raw
/// mode also where raw paste was switched off.
pub proof fn law_the_mode_decides(
    pre: SessionView,
    code: Seq<u8>,
    post: SessionView,
    r: Result<(), ErrorView>,
)
    requires
        session::submits(pre, code, post, r),
    ensures
        pre.submit_mode == SubmitMode::Paste ==> session::pastes(pre, code, post, r),
        pre.submit_mode == SubmitMode::Raw ==> session::sends_raw(pre, code, post, r),
        pre.submit_mode == SubmitMode::RawPaste && !pre.use_raw_paste ==> session::sends_raw(
            pre,
            code,
            post,
            r,
        ),
        pre.submit_mode == SubmitMode::RawPaste && pre.use_raw_paste ==> exists|
            mid: SessionView,
            first: Result<(), ErrorView>,
        | #[trigger]
            session::raw_pastes(pre, code, mid, first) && (first is Ok ==> post == mid && r is Ok),
{
}

/// Leaving the raw REPL keeps the settings, and where it fails the session still counts
/// as being in the raw REPL if it was.
pub proof fn law_leaving_keeps_the_settings(
    pre: SessionView,
    post: SessionView,
    r: Result<(), ErrorView>,
)
    requires
        session::exits(pre, post, r),
    ensures
        post.timeout_ms == pre.timeout_ms,
        post.submit_mode == pre.submit_mode,
        post.use_raw_paste == pre.use_raw_paste,
        post.in_raw_repl == (pre.in_raw_repl && r is Err),
{
}

/// Whether a session has kept its settings, or has given up raw paste.
pub open spec fn keeps_settings(pre: SessionView, post: SessionView) -> bool {
    &&& post.timeout_ms == pre.timeout_ms
    &&& {
        ||| post.submit_mode == pre.submit_mode && post.use_raw_paste == pre.use_raw_paste
        ||| pre.submit_mode == SubmitMode::RawPaste && pre.use_raw_paste && post.submit_mode
            == SubmitMode::Raw && !post.use_raw_paste
    }
}

/// Executing code keeps the settings of a session, but for raw paste, which is given up
/// where it fails.
pub proof fn law_execution_keeps_the_settings(
    pre: SessionView,
    code: Seq<u8>,
    post: SessionView,
    r: Result<Output, ErrorView>,
)
    requires
        session::executes(pre, code, post, r),
    ensures
        keeps_settings(pre, post),
{
    let (a, ra) = choose|a: SessionView, ra: Result<(), ErrorView>| #[trigger]
        session::enters(pre, false, a, ra) && match ra {
            Err(x) => post == a && r == Err::<Output, ErrorView>(x),
            Ok(_) => session::executes_entered(a, code, post, r),
        };
    if ra is Ok {
        let (b, rb) = choose|b: SessionView, rb: Result<(), ErrorView>| #[trigger]
            session::submits(a, code, b, rb) && match rb {
                Err(x) => post == b && r == Err::<Output, ErrorView>(x),
                Ok(_) => session::executes_submitted(b, post, r),
            };
        session_laws::law_fallback_is_kept(a, code, b, rb);
        if rb is Ok {
            let (c, rc) = choose|c: SessionView, rc: Result<Output, ErrorView>| #[trigger]
                session::follows(b, 30_000, c, rc) && match rc {
                    Err(x) => post == c && r == Err::<Output, ErrorView>(x),
                    Ok(out) => exists|rd: Result<(), ErrorView>| #[trigger]
                        session::exits(c, post, rd) && r == (match rd {
                            Ok(_) => Ok::<Output, ErrorView>(out),
                            Err(x) => Err(x),
                        }),
                };
        }
    }
}

// ---------------------------------------------------------------------------
// What the errors of the protocol say
// ---------------------------------------------------------------------------

/// A submission in raw mode that is not answered with `OK` fails with an error that tells
/// the answer.
pub proof fn law_raw_mode_tells_the_answer(
    pre: SessionView,
    code: Seq<u8>,
    post: SessionView,
    e: ErrorView,
    answer: Seq<u8>,
)
    requires
        session::sends_raw(pre, code, post, Err(e)),
        post.record.len() > 0,
        gave(post.record.last(), answer),
    ensures
        e == ErrorView::Protocol(
            "expected OK after raw submit, got "@ + unicode::debug_quoted(
                unicode::text_of(answer),
            ),
        ),
{
    let t = session_laws::since(pre, post);
    assert(t.len() > 0);
    assert(t.last() == post.record.last());
}

/// A raw paste that fails over a byte of the device tells it: as an acknowledgement that
/// is none where all of the code and its end had been sent, and else as a byte that was
/// not expected. A device that stops the transfer is said to have done so.
pub proof fn law_raw_paste_tells_the_byte(
    pre: SessionView,
    code: Seq<u8>,
    post: SessionView,
    e: ErrorView,
    b: u8,
)
    requires
        session::raw_pastes(pre, code, post, Err(e)),
        session_laws::since(pre, post).len() > 3,
    ensures
        ({
            let t = session_laws::since(pre, post);
            let w = connection::written(t);
            &&& gave(t.last(), seq![b]) && w.len() == code.len() + 4 ==> e == ErrorView::Protocol(
                "expected CTRL-D ack after raw-paste, got 0x"@ + operation_laws::hexlify(seq![b]),
            )
            &&& gave(t.last(), seq![b]) && w.len() < code.len() + 4 && b != 1 && b != 4 ==> e
                == ErrorView::Protocol(
                "unexpected byte during raw-paste: 0x"@ + operation_laws::hexlify(seq![b]),
            )
            &&& t.last().wrote(seq![4u8]) == Some(Ok::<(), ErrorView>(())) && gave(
                t[t.len() - 2],
                seq![4u8],
            ) && w.len() < code.len() + 4 ==> e == ErrorView::Protocol(
                "device aborted raw-paste transfer"@,
            )
        }),
{
    let t = session_laws::since(pre, post);
    let p = t.drop_last();
    let step = session::raw_paste_step(code, pre.timeout_ms);
    let before = connection::run(RawPasteState::Ask, step, p)->0;
    operation_laws::law_hex_is_that_of_the_device(seq![b]);
    assert(seq![b].skip(1).len() == 0);
    reveal_with_fuel(hex::hex_text, 2);
    assert(hex::hex_text(seq![b]) =~= hex::hex_byte(b));
    session_laws::lemma_raw_paste_progress(code, pre.timeout_ms, p, before);
    lemma_answer_shape(code, pre.timeout_ms, p, before);
    lemma_control_is_early(code, pre.timeout_ms, p, before);
    assert(seq![b][0] == b);
    assert(seq![4u8][0] == 4);
    assert(p.len() > 2);
}

proof fn lemma_control_is_early(code: Seq<u8>, timeout_ms: nat, t: Seq<Exchange>, s: RawPasteState)
    requires
        connection::run(
            RawPasteState::Ask,
            session::raw_paste_step(code, timeout_ms),
            t,
        ) == Some(s),
    ensures
        s matches RawPasteState::Control(f) ==> f.sent < code.len(),
        s matches RawPasteState::Poll(f) ==> f.sent < code.len(),
    decreases t.len(),
{
    let step = session::raw_paste_step(code, timeout_ms);
    if t.len() > 0 {
        let p = t.drop_last();
        let before = connection::run(RawPasteState::Ask, step, p)->0;
        lemma_control_is_early(code, timeout_ms, p, before);
    }
}

} // verus!
