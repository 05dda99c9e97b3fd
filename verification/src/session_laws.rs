//! What holds of every session, whatever the device replies.

use vstd::prelude::*;

use crate::connection;
use crate::connection::Exchange;
use crate::error::ErrorView;
use crate::protocol::SubmitMode;
use crate::protocol::CHUNK_SIZE;
use crate::protocol::CTRL_B;
use crate::protocol::CTRL_D;
use crate::protocol::CTRL_E;
use crate::protocol::FOLLOW_TIMEOUT_MS;
use crate::serial;
use crate::session;
use crate::session::EnterState;
use crate::session::Flow;
use crate::session::FollowState;
use crate::session::Output;
use crate::session::PasteState;
use crate::session::RawPasteState;
use crate::session::RawState;
use crate::session::SessionView;

verus! {

/// The exchanges that turned the record `pre` into the record `post`.
pub open spec fn since(pre: SessionView, post: SessionView) -> Seq<Exchange> {
    post.record.skip(pre.record.len() as int)
}

// ---------------------------------------------------------------------------
// Raw paste
// ---------------------------------------------------------------------------

/// The credit of flow control: what was sent and what may still be sent is what
/// the device has granted.
pub open spec fn balanced(f: Flow, len: nat) -> bool {
    &&& f.sent <= len
    &&& f.sent + f.left == f.window * (f.grants + 1)
}

/// What has been written in each state of a raw paste.
pub open spec fn raw_paste_progress(code: Seq<u8>, s: RawPasteState, w: Seq<u8>) -> bool {
    match s {
        RawPasteState::Ask => w == Seq::<u8>::empty(),
        RawPasteState::Answer | RawPasteState::Resync | RawPasteState::WindowSize => w
            == session::raw_paste_request(),
        RawPasteState::Peek { .. } | RawPasteState::Extra { .. } => w
            == session::raw_paste_request(),
        RawPasteState::Poll(f) => balanced(f, code.len()) && w == session::raw_paste_request()
            + code.take(f.sent as int),
        RawPasteState::Control(f) => balanced(f, code.len()) && w == session::raw_paste_request()
            + code.take(f.sent as int),
        RawPasteState::Send(f) => balanced(f, code.len()) && w == session::raw_paste_request()
            + code.take(f.sent as int),
        RawPasteState::Abort => true,
        RawPasteState::Finish => w == session::raw_paste_request() + code,
        RawPasteState::Ack => w == session::raw_paste_request() + code + seq![CTRL_D],
        RawPasteState::Done(r) => r is Ok ==> w == session::raw_paste_request() + code + seq![
            CTRL_D,
        ],
    }
}

proof fn lemma_flowing(code: Seq<u8>, f: Flow, w: Seq<u8>)
    requires
        balanced(f, code.len()),
        w == session::raw_paste_request() + code.take(f.sent as int),
    ensures
        raw_paste_progress(code, session::flowing(code.len(), f), w),
{
    if f.sent >= code.len() {
        assert(code.take(f.sent as int) =~= code);
    }
}

/// What has been written when a raw paste has come to a state.
#[verifier::spinoff_prover]
pub proof fn lemma_raw_paste_progress(
    code: Seq<u8>,
    timeout_ms: nat,
    t: Seq<Exchange>,
    s: RawPasteState,
)
    requires
        connection::run(RawPasteState::Ask, session::raw_paste_step(code, timeout_ms), t) == Some(
            s,
        ),
    ensures
        raw_paste_progress(code, s, connection::written(t)),
    decreases t.len(),
{
    let step = session::raw_paste_step(code, timeout_ms);
    let w = connection::written(t);
    if t.len() > 0 {
        let before = connection::run(RawPasteState::Ask, step, t.drop_last())->0;
        let wb = connection::written(t.drop_last());
        let e = t.last();
        lemma_raw_paste_progress(code, timeout_ms, t.drop_last(), before);
        match before {
            RawPasteState::Ask => {
                assert(Seq::<u8>::empty() + session::raw_paste_request()
                    =~= session::raw_paste_request());
            },
            RawPasteState::Peek { window } => {
                let f = session::fresh_flow(window);
                assert(session::raw_paste_request() + code.take(0)
                    =~= session::raw_paste_request());
                assert(window * (0 + 1) == window) by (nonlinear_arith);
                lemma_flowing(code, f, wb);
            },
            RawPasteState::Extra { window } => {
                let f = session::fresh_flow(window);
                assert(session::raw_paste_request() + code.take(0)
                    =~= session::raw_paste_request());
                assert(window * (0 + 1) == window) by (nonlinear_arith);
                lemma_flowing(code, f, wb);
            },
            RawPasteState::Control(f) => {
                assert(f.window * (f.grants + 2) == f.window * (f.grants + 1) + f.window)
                    by (nonlinear_arith);
            },
            RawPasteState::Send(f) => {
                let end = session::chunk_end(code.len(), f.sent, f.left);
                let data = code.subrange(f.sent as int, end as int);
                let next = Flow { sent: end, left: (f.left + f.sent - end) as nat, ..f };
                assert(code.take(f.sent as int) + data =~= code.take(end as int));
                assert(wb + data =~= session::raw_paste_request() + code.take(end as int));
                if e.wrote(data) matches Some(Ok(_)) {
                    assert(w == wb + data);
                    lemma_flowing(code, next, w);
                }
            },
            _ => {},
        }
    }
}

/// A raw paste that succeeds has sent its request, then the code, whole and in
/// order, then the end mark, and nothing else.
pub proof fn law_raw_paste_sends_the_code(pre: SessionView, code: Seq<u8>, post: SessionView)
    requires
        session::raw_pastes(pre, code, post, Ok(())),
    ensures
        connection::written(since(pre, post)) == session::raw_paste_request() + code + seq![CTRL_D],
{
    lemma_raw_paste_progress(code, pre.timeout_ms, since(pre, post), RawPasteState::Done(Ok(())));
}

/// While a raw paste sends, it has sent a prefix of the code, and never more than
/// the device has granted: one window at the start and one for each grant.
pub proof fn law_raw_paste_keeps_to_the_window(
    pre: SessionView,
    code: Seq<u8>,
    post: SessionView,
    f: Flow,
)
    requires
        session::raw_pasting(pre, code, post, RawPasteState::Poll(f)) || session::raw_pasting(
            pre,
            code,
            post,
            RawPasteState::Control(f),
        ) || session::raw_pasting(pre, code, post, RawPasteState::Send(f)),
    ensures
        f.sent <= code.len(),
        f.sent <= f.window * (f.grants + 1),
        connection::written(since(pre, post)) == session::raw_paste_request() + code.take(
            f.sent as int,
        ),
{
    if session::raw_pasting(pre, code, post, RawPasteState::Poll(f)) {
        lemma_raw_paste_progress(code, pre.timeout_ms, since(pre, post), RawPasteState::Poll(f));
    } else if session::raw_pasting(pre, code, post, RawPasteState::Control(f)) {
        lemma_raw_paste_progress(code, pre.timeout_ms, since(pre, post), RawPasteState::Control(f));
    } else {
        lemma_raw_paste_progress(code, pre.timeout_ms, since(pre, post), RawPasteState::Send(f));
    }
}

// ---------------------------------------------------------------------------
// Raw mode and paste mode
// ---------------------------------------------------------------------------

/// Every write has at most as many bytes as one chunk.
pub open spec fn small_writes(t: Seq<Exchange>) -> bool {
    forall|i: int|
        0 <= i < t.len() ==> match #[trigger] t[i] {
            Exchange::Write { data, .. } => data.len() <= CHUNK_SIZE,
            _ => true,
        }
}

/// What has been written in each state of raw mode.
pub open spec fn raw_progress(code: Seq<u8>, s: RawState, w: Seq<u8>) -> bool {
    match s {
        RawState::Chunk { from } => from <= code.len() && w == code.take(from as int),
        RawState::ChunkPause { next } => next <= code.len() && w == code.take(next as int),
        RawState::End => w == code,
        RawState::Reply => w == code + seq![CTRL_D],
        RawState::Done(r) => r is Ok ==> w == code + seq![CTRL_D],
    }
}

proof fn lemma_raw_progress(code: Seq<u8>, timeout_ms: nat, t: Seq<Exchange>, s: RawState)
    requires
        connection::run(
            session::raw_sending(code.len(), 0),
            session::raw_step(code, timeout_ms),
            t,
        ) == Some(s),
    ensures
        raw_progress(code, s, connection::written(t)),
        small_writes(t),
    decreases t.len(),
{
    let start = session::raw_sending(code.len(), 0);
    let step = session::raw_step(code, timeout_ms);
    if t.len() == 0 {
        assert(code.take(0) =~= Seq::empty());
        if code.len() == 0 {
            assert(code =~= Seq::empty());
        }
    } else {
        let before = connection::run(start, step, t.drop_last())->0;
        lemma_raw_progress(code, timeout_ms, t.drop_last(), before);
        match before {
            RawState::Chunk { from } => {
                let end = session::chunk_end(code.len(), from, CHUNK_SIZE as nat);
                assert(code.take(from as int) + code.subrange(from as int, end as int)
                    =~= code.take(end as int));
            },
            RawState::ChunkPause { next } => {
                if next >= code.len() {
                    assert(code.take(next as int) =~= code);
                }
            },
            _ => {},
        }
        assert forall|i: int| 0 <= i < t.len() implies match #[trigger] t[i] {
            Exchange::Write { data, .. } => data.len() <= CHUNK_SIZE,
            _ => true,
        } by {
            if i < t.len() - 1 {
                assert(t[i] == t.drop_last()[i]);
            }
        }
    }
}

/// A submission in raw mode that succeeds has sent the code, whole and in order,
/// in writes of at most one chunk, then the end mark.
pub proof fn law_raw_mode_sends_the_code(pre: SessionView, code: Seq<u8>, post: SessionView)
    requires
        session::sends_raw(pre, code, post, Ok(())),
    ensures
        connection::written(since(pre, post)) == code + seq![CTRL_D],
        small_writes(since(pre, post)),
{
    lemma_raw_progress(code, pre.timeout_ms, since(pre, post), RawState::Done(Ok(())));
}

/// What has been written in each state of paste mode.
pub open spec fn paste_progress(code: Seq<u8>, s: PasteState, w: Seq<u8>) -> bool {
    match s {
        PasteState::Open => w == Seq::<u8>::empty(),
        PasteState::Prompt => w == seq![CTRL_E],
        PasteState::Chunk { from } => from <= code.len() && w == seq![CTRL_E] + code.take(
            from as int,
        ),
        PasteState::ChunkPause { next } => next <= code.len() && w == seq![CTRL_E] + code.take(
            next as int,
        ),
        PasteState::End => w == seq![CTRL_E] + code,
        PasteState::Echo => w == seq![CTRL_E] + code + seq![CTRL_D],
        PasteState::Done(r) => r is Ok ==> w == seq![CTRL_E] + code + seq![CTRL_D],
    }
}

proof fn lemma_paste_progress(code: Seq<u8>, timeout_ms: nat, t: Seq<Exchange>, s: PasteState)
    requires
        connection::run(PasteState::Open, session::paste_step(code, timeout_ms), t) == Some(s),
    ensures
        paste_progress(code, s, connection::written(t)),
        small_writes(t),
    decreases t.len(),
{
    let step = session::paste_step(code, timeout_ms);
    if t.len() > 0 {
        let before = connection::run(PasteState::Open, step, t.drop_last())->0;
        lemma_paste_progress(code, timeout_ms, t.drop_last(), before);
        match before {
            PasteState::Open => {
                assert(Seq::<u8>::empty() + seq![CTRL_E] =~= seq![CTRL_E]);
            },
            PasteState::Prompt => {
                assert(seq![CTRL_E] + code.take(0) =~= seq![CTRL_E]);
                if code.len() == 0 {
                    assert(seq![CTRL_E] + code =~= seq![CTRL_E]);
                }
            },
            PasteState::Chunk { from } => {
                let end = session::chunk_end(code.len(), from, CHUNK_SIZE as nat);
                assert(seq![CTRL_E] + code.take(from as int) + code.subrange(
                    from as int,
                    end as int,
                ) =~= seq![CTRL_E] + code.take(end as int));
            },
            PasteState::ChunkPause { next } => {
                if next >= code.len() {
                    assert(code.take(next as int) =~= code);
                }
            },
            _ => {},
        }
        assert forall|i: int| 0 <= i < t.len() implies match #[trigger] t[i] {
            Exchange::Write { data, .. } => data.len() <= CHUNK_SIZE,
            _ => true,
        } by {
            if i < t.len() - 1 {
                assert(t[i] == t.drop_last()[i]);
            }
        }
    }
}

/// A submission in paste mode that succeeds has opened paste mode, sent the code,
/// whole and in order, in writes of at most one chunk, then the end mark.
pub proof fn law_paste_mode_sends_the_code(pre: SessionView, code: Seq<u8>, post: SessionView)
    requires
        session::pastes(pre, code, post, Ok(())),
    ensures
        connection::written(since(pre, post)) == seq![CTRL_E] + code + seq![CTRL_D],
        small_writes(since(pre, post)),
{
    lemma_paste_progress(code, pre.timeout_ms, since(pre, post), PasteState::Done(Ok(())));
}

// ---------------------------------------------------------------------------
// Collecting output
// ---------------------------------------------------------------------------

/// The bytes that reads of an exact length gave, in order.
pub open spec fn received(t: Seq<Exchange>) -> Seq<u8>
    decreases t.len(),
{
    if t.len() == 0 {
        Seq::empty()
    } else {
        match t.last() {
            Exchange::ReadExact { reply: Ok(data), .. } => received(t.drop_last()) + data,
            _ => received(t.drop_last()),
        }
    }
}

/// What has been received in each state of `follow`.
pub open spec fn follow_progress(s: FollowState, got: Seq<u8>, w: Seq<u8>) -> bool {
    &&& w == Seq::<u8>::empty()
    &&& match s {
        FollowState::Start => got == Seq::<u8>::empty(),
        FollowState::Check(c) | FollowState::Read(c) => {
            &&& !c.stdout.contains(CTRL_D)
            &&& !c.stderr.contains(CTRL_D)
            &&& if c.seen {
                got == c.stdout + seq![CTRL_D] + c.stderr
            } else {
                got == c.stdout && c.stderr.len() == 0
            }
        },
        FollowState::Done(Ok(out)) => {
            &&& !out.stdout.contains(CTRL_D)
            &&& !out.stderr.contains(CTRL_D)
            &&& got == out.stdout + seq![CTRL_D] + out.stderr + seq![CTRL_D]
        },
        FollowState::Done(Err(_)) => true,
    }
}

proof fn lemma_push_contains(s: Seq<u8>, b: u8, x: u8)
    requires
        !s.contains(x),
        b != x,
    ensures
        !s.push(b).contains(x),
{
    assert forall|i: int| 0 <= i < s.push(b).len() implies s.push(b)[i] != x by {
        if i < s.len() {
            assert(s.contains(s[i]));
        }
    }
}

proof fn lemma_follow_progress(timeout_ms: nat, t: Seq<Exchange>, s: FollowState)
    requires
        connection::run(FollowState::Start, session::follow_step(timeout_ms), t) == Some(s),
    ensures
        follow_progress(s, received(t), connection::written(t)),
    decreases t.len(),
{
    let step = session::follow_step(timeout_ms);
    if t.len() > 0 {
        let before = connection::run(FollowState::Start, step, t.drop_last())->0;
        lemma_follow_progress(timeout_ms, t.drop_last(), before);
        match before {
            FollowState::Read(c) => {
                let e = t[t.len() - 1];
                match e.exact(1, 100) {
                    Some(Ok(data)) => {
                        let b = data[0];
                        let got = received(t.drop_last());
                        assert(data =~= seq![b]);
                        assert(received(t) == got + data);
                        if b == CTRL_D {
                            if c.seen {
                            } else {
                                assert(c.stdout + seq![CTRL_D] + c.stderr =~= got + data);
                            }
                        } else if c.seen {
                            lemma_push_contains(c.stderr, b, CTRL_D);
                            assert(c.stdout + seq![CTRL_D] + c.stderr.push(b) =~= got + data);
                        } else {
                            lemma_push_contains(c.stdout, b, CTRL_D);
                            assert(c.stdout.push(b) =~= got + data);
                        }
                    },
                    _ => {},
                }
            },
            _ => {},
        }
    }
}

/// `follow` writes nothing. When it succeeds, the bytes that it read are standard
/// output, CTRL-D, error output, CTRL-D, and neither output holds a CTRL-D.
pub proof fn law_follow_splits_the_output(
    pre: SessionView,
    timeout_ms: nat,
    post: SessionView,
    out: Output,
)
    requires
        session::follows(pre, timeout_ms, post, Ok(out)),
    ensures
        connection::written(since(pre, post)) == Seq::<u8>::empty(),
        received(since(pre, post)) == out.stdout + seq![CTRL_D] + out.stderr + seq![CTRL_D],
        !out.stdout.contains(CTRL_D),
        !out.stderr.contains(CTRL_D),
{
    lemma_follow_progress(timeout_ms, since(pre, post), FollowState::Done(Ok(out)));
}

// ---------------------------------------------------------------------------
// Whole operations
// ---------------------------------------------------------------------------

/// The raw REPL counts as entered only once the device has shown its banner: the
/// last bytes read hold it.
pub proof fn law_enter_ends_with_the_banner(
    pre: SessionView,
    soft_reset: bool,
    post: SessionView,
)
    requires
        session::enters(pre, soft_reset, post, Ok(())),
    ensures
        post.in_raw_repl,
        since(pre, post).len() > 0,
        post.record.last().until(session::raw_repl_banner(), pre.timeout_ms) matches Some(
            Ok(data),
        ) && serial::holds_bytes(data, session::raw_repl_banner()),
{
    let t = since(pre, post);
    let step = session::enter_step(pre.timeout_ms, soft_reset);
    assert(connection::run(session::drained(0), step, t) == Some(EnterState::Done(Ok(()))));
    assert(t.len() > 0);
    assert(t.last() == post.record.last());
}

/// A session that submits by raw paste goes on doing so until a raw paste fails;
/// then it submits in raw mode, and never tries raw paste again.
pub proof fn law_fallback_is_kept(
    pre: SessionView,
    code: Seq<u8>,
    post: SessionView,
    r: Result<(), ErrorView>,
)
    requires
        session::submits(pre, code, post, r),
    ensures
        post.timeout_ms == pre.timeout_ms,
        pre.submit_mode == SubmitMode::Raw ==> {
            &&& session::sends_raw(pre, code, post, r)
            &&& post.submit_mode == SubmitMode::Raw
            &&& post.use_raw_paste == pre.use_raw_paste
        },
        pre.submit_mode == SubmitMode::RawPaste && pre.use_raw_paste ==> {
            ||| post.submit_mode == SubmitMode::RawPaste && post.use_raw_paste && r is Ok
            ||| post.submit_mode == SubmitMode::Raw && !post.use_raw_paste
        },
{
}

/// Executing code that succeeds leaves the raw REPL.
pub proof fn law_exec_leaves_the_raw_repl(
    pre: SessionView,
    code: Seq<u8>,
    post: SessionView,
    out: Output,
)
    requires
        session::executes(pre, code, post, Ok(out)),
    ensures
        !post.in_raw_repl,
{
}

proof fn lemma_batch_steps_keep(
    pre: SessionView,
    codes: Seq<Seq<u8>>,
    post: SessionView,
    r: Result<Seq<Output>, ErrorView>,
)
    requires
        session::batch_steps(pre, codes, post, r),
    ensures
        post == pre.with_record(post.record),
        r matches Ok(outs) ==> outs.len() == codes.len(),
    decreases codes.len(),
{
    if codes.len() > 0 {
        let (m, rm) = choose|m: SessionView, rm: Result<Seq<Output>, ErrorView>|
            session::batch_steps(pre, codes.drop_last(), m, rm) && #[trigger]
            session::batch_goes_on(m, rm, codes.last(), post, r);
        lemma_batch_steps_keep(pre, codes.drop_last(), m, rm);
    }
}

/// A batch never falls back to another submit mode. When it succeeds it has one
/// output for each code, and the raw REPL has been left.
pub proof fn law_batch_never_falls_back(
    pre: SessionView,
    codes: Seq<Seq<u8>>,
    post: SessionView,
    r: Result<Seq<Output>, ErrorView>,
)
    requires
        session::executes_batch(pre, codes, post, r),
    ensures
        post.submit_mode == pre.submit_mode,
        post.use_raw_paste == pre.use_raw_paste,
        r matches Ok(outs) ==> outs.len() == codes.len() && !post.in_raw_repl,
{
    let (a, ra) = choose|a: SessionView, ra: Result<(), ErrorView>| #[trigger]
        session::enters(pre, false, a, ra) && match ra {
            Err(e) => post == a && r == Err::<Seq<Output>, ErrorView>(e),
            Ok(_) => session::executes_batch_entered(a, codes, post, r),
        };
    if ra is Ok {
        let (b, rb) = choose|b: SessionView, rb: Result<Seq<Output>, ErrorView>| #[trigger]
            session::batch_steps(a, codes, b, rb) && match rb {
                Err(e) => post == b && r == rb,
                Ok(outs) => exists|rd: Result<(), ErrorView>| #[trigger]
                    session::exits(b, post, rd) && r == (match rd {
                        Ok(_) => Ok::<Seq<Output>, ErrorView>(outs),
                        Err(e) => Err(e),
                    }),
            };
        lemma_batch_steps_keep(a, codes, b, rb);
    }
}

// ---------------------------------------------------------------------------
// What a device is sent
// ---------------------------------------------------------------------------

/// The record of one session continues that of another.
pub open spec fn continues(pre: SessionView, post: SessionView) -> bool {
    pre.record.is_prefix_of(post.record)
}

proof fn lemma_written_concat(a: Seq<Exchange>, b: Seq<Exchange>)
    ensures
        connection::written(a + b) == connection::written(a) + connection::written(b),
    decreases b.len(),
{
    if b.len() == 0 {
        assert(a + b =~= a);
        assert(connection::written(a) + connection::written(b) =~= connection::written(a));
    } else {
        lemma_written_concat(a, b.drop_last());
        assert((a + b).drop_last() =~= a + b.drop_last());
        assert((a + b).last() == b.last());
        match b.last() {
            Exchange::Write { data, status: Ok(_) } => {
                assert(connection::written(a) + connection::written(b.drop_last()) + data
                    =~= connection::written(a) + (connection::written(b.drop_last()) + data));
            },
            _ => {},
        }
    }
}

pub proof fn lemma_written_through(a: SessionView, b: SessionView, c: SessionView)
    requires
        continues(a, b),
        continues(b, c),
    ensures
        continues(a, c),
        connection::written(since(a, c)) == connection::written(since(a, b)) + connection::written(
            since(b, c),
        ),
{
    assert(c.record.take(a.record.len() as int) =~= a.record) by {
        assert(c.record.take(b.record.len() as int) == b.record);
        assert(b.record.take(a.record.len() as int) == a.record);
    }
    assert(since(a, c) =~= since(a, b) + since(b, c)) by {
        assert(c.record.take(b.record.len() as int) == b.record);
    }
    lemma_written_concat(since(a, b), since(b, c));
}

pub proof fn lemma_write_one(pre: SessionView, data: Seq<u8>)
    ensures
        continues(pre, pre.then_write(data, Ok(()))),
        connection::written(since(pre, pre.then_write(data, Ok(())))) == data,
{
    let post = pre.then_write(data, Ok(()));
    let t = since(pre, post);
    assert(t =~= seq![Exchange::Write { data, status: Ok(()) }]);
    assert(t.drop_last().len() == 0);
    assert(connection::written(t.drop_last()) == Seq::<u8>::empty());
    assert(Seq::<u8>::empty() + data =~= data);
}

/// The bytes that leave the raw REPL.
pub open spec fn leaving() -> Seq<u8> {
    seq![0x0du8, CTRL_B]
}

proof fn lemma_exit_writes(pre: SessionView, post: SessionView)
    requires
        session::exits(pre, post, Ok(())),
    ensures
        continues(pre, post),
        connection::written(since(pre, post)) == leaving(),
{
    let mid = pre.then_write(seq![0x0du8], Ok(()));
    let end = mid.then_write(seq![CTRL_B], Ok(()));
    lemma_write_one(pre, seq![0x0du8]);
    lemma_write_one(mid, seq![CTRL_B]);
    lemma_written_through(pre, mid, end);
    assert(since(pre, post) == since(pre, end));
    assert(seq![0x0du8] + seq![CTRL_B] =~= leaving());
}

/// Whether bytes end with code and its end mark.
pub open spec fn ends_with_code(w: Seq<u8>, code: Seq<u8>) -> bool {
    exists|head: Seq<u8>| w == #[trigger] (head + (code + seq![CTRL_D]))
}

proof fn lemma_ends_with_code(before: Seq<u8>, w: Seq<u8>, code: Seq<u8>)
    requires
        ends_with_code(w, code),
    ensures
        ends_with_code(before + w, code),
{
    let tail = code + seq![CTRL_D];
    let head = choose|head: Seq<u8>| w == #[trigger] (head + tail);
    assert(before + w =~= (before + head) + tail);
}

proof fn lemma_raw_sends(pre: SessionView, code: Seq<u8>, post: SessionView)
    requires
        session::sends_raw(pre, code, post, Ok(())),
    ensures
        continues(pre, post),
        ends_with_code(connection::written(since(pre, post)), code),
{
    law_raw_mode_sends_the_code(pre, code, post);
    assert(code + seq![CTRL_D] =~= Seq::<u8>::empty() + (code + seq![CTRL_D]));
}

/// Code that was submitted was sent whole and in order, followed by its end mark,
/// as the last thing that was sent; whatever the submit mode, and whatever was
/// tried before.
pub proof fn law_submission_sends_the_code(pre: SessionView, code: Seq<u8>, post: SessionView)
    requires
        session::submits(pre, code, post, Ok(())),
    ensures
        continues(pre, post),
        ends_with_code(connection::written(since(pre, post)), code),
{
    let tail = code + seq![CTRL_D];
    match pre.submit_mode {
        SubmitMode::RawPaste => {
            if pre.use_raw_paste {
                let (mid, first) = choose|mid: SessionView, first: Result<(), ErrorView>| #[trigger]
                    session::raw_pastes(pre, code, mid, first) && match first {
                        Ok(_) => post == mid,
                        Err(_) => session::falls_back(
                            mid.without_raw_paste(),
                            code,
                            post,
                            Ok(()),
                        ),
                    };
                if first is Ok {
                    law_raw_paste_sends_the_code(pre, code, post);
                    assert(session::raw_paste_request() + code + seq![CTRL_D]
                        =~= session::raw_paste_request() + tail);
                } else {
                    let start = mid.without_raw_paste();
                    let (a, ra) = choose|a: SessionView, ra: Result<(), ErrorView>| #[trigger]
                        session::exits(start, a, ra) && match ra {
                            Err(e) => false,
                            Ok(_) => exists|b: SessionView, rb: Result<(), ErrorView>| #[trigger]
                                session::enters(a, false, b, rb) && match rb {
                                    Err(e) => false,
                                    Ok(_) => session::sends_raw(b, code, post, Ok(())),
                                },
                        };
                    let (b, rb) = choose|b: SessionView, rb: Result<(), ErrorView>| #[trigger]
                        session::enters(a, false, b, rb) && match rb {
                            Err(e) => false,
                            Ok(_) => session::sends_raw(b, code, post, Ok(())),
                        };
                    lemma_exit_writes(start, a);
                    lemma_raw_sends(b, code, post);
                    assert(continues(pre, start));
                    lemma_written_through(pre, start, a);
                    lemma_written_through(pre, a, b);
                    lemma_written_through(pre, b, post);
                    lemma_ends_with_code(
                        connection::written(since(pre, b)),
                        connection::written(since(b, post)),
                        code,
                    );
                }
            } else {
                lemma_raw_sends(pre, code, post);
            }
        },
        SubmitMode::Paste => {
            law_paste_mode_sends_the_code(pre, code, post);
            assert(seq![CTRL_E] + code + seq![CTRL_D] =~= seq![CTRL_E] + tail);
        },
        SubmitMode::Raw => {
            lemma_raw_sends(pre, code, post);
        },
    }
}

/// Whether bytes end with code, its end mark, and the bytes that leave the raw REPL.
pub open spec fn ends_with_execution(w: Seq<u8>, code: Seq<u8>) -> bool {
    exists|before: Seq<u8>|
        ends_with_code(before, code) && w == #[trigger] (before + leaving())
}

/// When executing code succeeds, the last thing that the device was sent is the
/// code, whole and in order, with its end mark, and then what leaves the raw REPL.
pub proof fn law_execution_sends_the_code(
    pre: SessionView,
    code: Seq<u8>,
    post: SessionView,
    out: Output,
)
    requires
        session::executes(pre, code, post, Ok(out)),
    ensures
        continues(pre, post),
        ends_with_execution(connection::written(since(pre, post)), code),
{
    let (a, ra) = choose|a: SessionView, ra: Result<(), ErrorView>| #[trigger]
        session::enters(pre, false, a, ra) && match ra {
            Err(e) => false,
            Ok(_) => session::executes_entered(a, code, post, Ok(out)),
        };
    let (b, rb) = choose|b: SessionView, rb: Result<(), ErrorView>| #[trigger]
        session::submits(a, code, b, rb) && match rb {
            Err(e) => false,
            Ok(_) => session::executes_submitted(b, post, Ok(out)),
        };
    law_submission_sends_the_code(a, code, b);
    let (c, rc) = choose|c: SessionView, rc: Result<Output, ErrorView>| #[trigger]
        session::follows(b, FOLLOW_TIMEOUT_MS as nat, c, rc) && match rc {
            Err(e) => false,
            Ok(o) => exists|rd: Result<(), ErrorView>| #[trigger]
                session::exits(c, post, rd) && Ok::<Output, ErrorView>(out) == (match rd {
                    Ok(_) => Ok::<Output, ErrorView>(o),
                    Err(e) => Err(e),
                }),
        };
    law_follow_splits_the_output(b, FOLLOW_TIMEOUT_MS as nat, c, out);
    lemma_exit_writes(c, post);
    lemma_written_through(pre, a, b);
    lemma_written_through(pre, b, c);
    lemma_written_through(pre, c, post);
    let w = connection::written(since(pre, b));
    lemma_ends_with_code(
        connection::written(since(pre, a)),
        connection::written(since(a, b)),
        code,
    );
    assert(w + connection::written(since(b, c)) =~= w);
}

/// What raw paste sends for several codes.
pub open spec fn pasted(codes: Seq<Seq<u8>>) -> Seq<u8>
    decreases codes.len(),
{
    if codes.len() == 0 {
        Seq::empty()
    } else {
        pasted(codes.drop_last()) + (session::raw_paste_request() + codes.last() + seq![CTRL_D])
    }
}

proof fn lemma_batch_step_writes(
    pre: SessionView,
    code: Seq<u8>,
    post: SessionView,
    out: Output,
)
    requires
        session::batch_step(pre, code, post, Ok(out)),
    ensures
        continues(pre, post),
        connection::written(since(pre, post)) == session::raw_paste_request() + code + seq![CTRL_D],
{
    let (a, ra) = choose|a: SessionView, ra: Result<(), ErrorView>| #[trigger]
        session::raw_pastes(pre, code, a, ra) && match ra {
            Err(e) => false,
            Ok(_) => session::batch_step_submitted(a, post, Ok(out)),
        };
    law_raw_paste_sends_the_code(pre, code, a);
    let (b, rb) = choose|b: SessionView, rb: Result<Output, ErrorView>| #[trigger]
        session::follows(a, FOLLOW_TIMEOUT_MS as nat, b, rb) && match rb {
            Err(e) => false,
            Ok(o) => {
                &&& post.record.len() > 0
                &&& post == b.then_exchange(post.record.last())
                &&& post.record.last().exact(1, 200) is Some
                &&& o == out
            },
        };
    law_follow_splits_the_output(a, FOLLOW_TIMEOUT_MS as nat, b, out);
    let w = connection::written(since(pre, a));
    lemma_written_through(pre, a, b);
    assert(w + Seq::<u8>::empty() =~= w);
    let t = since(b, post);
    assert(t =~= seq![post.record.last()]);
    assert(t.drop_last().len() == 0);
    assert(connection::written(t.drop_last()) == Seq::<u8>::empty());
    assert(connection::written(t) == Seq::<u8>::empty());
    assert(continues(b, post));
    lemma_written_through(pre, b, post);
}

proof fn lemma_batch_writes(
    pre: SessionView,
    codes: Seq<Seq<u8>>,
    post: SessionView,
    outs: Seq<Output>,
)
    requires
        session::batch_steps(pre, codes, post, Ok(outs)),
    ensures
        continues(pre, post),
        connection::written(since(pre, post)) == pasted(codes),
    decreases codes.len(),
{
    if codes.len() == 0 {
        assert(since(pre, post).len() == 0);
    } else {
        let r = Ok::<Seq<Output>, ErrorView>(outs);
        let (m, rm) = choose|m: SessionView, rm: Result<Seq<Output>, ErrorView>|
            session::batch_steps(pre, codes.drop_last(), m, rm) && #[trigger]
            session::batch_goes_on(m, rm, codes.last(), post, r);
        let done = rm->Ok_0;
        lemma_batch_writes(pre, codes.drop_last(), m, done);
        let ro = choose|ro: Result<Output, ErrorView>| #[trigger]
            session::batch_step(m, codes.last(), post, ro) && r == (match ro {
                Ok(out) => Ok::<Seq<Output>, ErrorView>(done.push(out)),
                Err(e) => Err(e),
            });
        lemma_batch_step_writes(m, codes.last(), post, ro->Ok_0);
        lemma_written_through(pre, m, post);
    }
}

/// Whether bytes end with a batch of codes, sent by raw paste, and the bytes that
/// leave the raw REPL.
pub open spec fn ends_with_batch(w: Seq<u8>, codes: Seq<Seq<u8>>) -> bool {
    exists|before: Seq<u8>| w == #[trigger] (before + (pasted(codes) + leaving()))
}

/// When a batch succeeds, the device was sent every code, whole and in order, by
/// raw paste and in one raw session, and then what leaves the raw REPL.
pub proof fn law_batch_sends_the_codes(
    pre: SessionView,
    codes: Seq<Seq<u8>>,
    post: SessionView,
    outs: Seq<Output>,
)
    requires
        session::executes_batch(pre, codes, post, Ok(outs)),
    ensures
        continues(pre, post),
        ends_with_batch(connection::written(since(pre, post)), codes),
{
    let r = Ok::<Seq<Output>, ErrorView>(outs);
    let (a, ra) = choose|a: SessionView, ra: Result<(), ErrorView>| #[trigger]
        session::enters(pre, false, a, ra) && match ra {
            Err(e) => false,
            Ok(_) => session::executes_batch_entered(a, codes, post, r),
        };
    let (b, rb) = choose|b: SessionView, rb: Result<Seq<Output>, ErrorView>| #[trigger]
        session::batch_steps(a, codes, b, rb) && match rb {
            Err(e) => false,
            Ok(done) => exists|rd: Result<(), ErrorView>| #[trigger]
                session::exits(b, post, rd) && r == (match rd {
                    Ok(_) => Ok::<Seq<Output>, ErrorView>(done),
                    Err(e) => Err(e),
                }),
        };
    lemma_batch_writes(a, codes, b, rb->Ok_0);
    lemma_exit_writes(b, post);
    lemma_written_through(a, b, post);
    lemma_written_through(pre, a, post);
    let head = connection::written(since(pre, a));
    assert(connection::written(since(pre, post)) =~= head + (pasted(codes) + leaving()));
}

} // verus!
