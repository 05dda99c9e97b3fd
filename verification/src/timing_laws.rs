//! What holds of the pace of a session: how long it waits for what, and where it lets
//! time pass before it goes on.

use vstd::prelude::*;

use crate::connection;
use crate::connection::Exchange;
use crate::error::ErrorView;
use crate::session;
use crate::session::EnterState;
use crate::session::FollowState;
use crate::session::Output;
use crate::session::PasteState;
use crate::session::RawPasteState;
use crate::session::RawState;
use crate::session::SessionView;
use crate::session_laws;

verus! {

/// Whether each exchange of a record may follow the one before it.
pub open spec fn in_pace(t: Seq<Exchange>, rule: spec_fn(Exchange, Exchange) -> bool) -> bool
    decreases t.len(),
{
    t.len() >= 2 ==> in_pace(t.drop_last(), rule) && rule(t[t.len() - 2], t[t.len() - 1])
}

/// Whether an exchange is a write of these bytes.
pub open spec fn writes(x: Exchange, bytes: Seq<u8>) -> bool {
    x matches Exchange::Write { data, .. } && data == bytes
}

/// Whether an exchange is a read up to a text.
pub open spec fn waits_for(x: Exchange, t: Seq<char>, ms: nat) -> bool {
    x matches Exchange::ReadUntil { pattern, timeout_ms, .. } && pattern
        == vstd::utf8::encode_utf8(t) && timeout_ms == ms
}

/// Whether an exchange is a read of a number of bytes.
pub open spec fn waits_for_bytes(x: Exchange, count: nat, ms: nat) -> bool {
    x matches Exchange::ReadExact { n, timeout_ms, .. } && n == count && timeout_ms == ms
}

// ---------------------------------------------------------------------------
// Entering the raw REPL
// ---------------------------------------------------------------------------

/// What may follow what while the raw REPL is entered: a pause after every interrupt,
/// after the raw REPL was left, and between looks for old output; after each request the
/// answer is waited for as long as the session waits.
pub open spec fn entering_rule(ms: nat) -> spec_fn(Exchange, Exchange) -> bool {
    |a: Exchange, b: Exchange|
        {
            &&& writes(a, seq![3u8]) ==> b == (Exchange::Pause { ms: 20 })
            &&& writes(a, seq![2u8]) ==> b == (Exchange::Pause { ms: 50 })
            &&& writes(a, seq![13u8]) ==> writes(b, seq![1u8])
            &&& writes(a, seq![1u8]) ==> waits_for(b, "raw REPL; CTRL-B to exit\r\n>"@, ms)
            &&& writes(a, seq![4u8]) ==> waits_for(b, "soft reboot\r\n"@, ms)
            &&& b is ReadAvailable ==> a is Pause
            &&& a is ReadAvailable && b is Pause ==> b == (Exchange::Pause { ms: 10 }) || b == (
            Exchange::Pause { ms: 20 })
        }
}

/// Whether an exchange is a look for old output that found none.
pub open spec fn found_nothing(x: Exchange) -> bool {
    x matches Exchange::ReadAvailable { reply: Ok(data) } && data.len() == 0
}

/// Whether a session goes on to interrupt, or to ask for the raw REPL, as soon as there is
/// no old output and not before; but for one whose device never falls silent, which asks
/// after ten looks.
pub open spec fn minds_old_output(t: Seq<Exchange>) -> bool
    decreases t.len(),
{
    t.len() >= 2 ==> {
        let a = t[t.len() - 2];
        let b = t[t.len() - 1];
        &&& minds_old_output(t.drop_last())
        &&& found_nothing(a) ==> writes(b, seq![3u8]) || writes(b, seq![13u8])
        &&& a is ReadAvailable && writes(b, seq![3u8]) ==> found_nothing(a)
        &&& a is ReadAvailable && writes(b, seq![13u8]) ==> found_nothing(a) || looks(t) >= 10
    }
}

/// How often it was looked for old output.
pub open spec fn looks(t: Seq<Exchange>) -> nat
    decreases t.len(),
{
    if t.len() == 0 {
        0
    } else {
        looks(t.drop_last()) + if t.last() is ReadAvailable {
            1nat
        } else {
            0nat
        }
    }
}

spec fn enter_pace(s: EnterState, t: Seq<Exchange>, ms: nat) -> bool {
    &&& in_pace(t, entering_rule(ms))
    &&& minds_old_output(t)
    &&& match s {
        EnterState::Drain { k } => k < 20 && looks(t) == k && (t.len() == 0 || t.last() == (
        Exchange::Pause { ms: 10 })),
        EnterState::DrainPause { k } => k < 20 && looks(t) == k + 1 && t.len() > 0
            && t.last() is ReadAvailable && !found_nothing(t.last()),
        EnterState::Interrupt { k } => looks(t) <= 20 && t.len() > 0 && (found_nothing(t.last())
            || t.last() is Pause),
        EnterState::InterruptPause { k } => looks(t) <= 20 && t.len() > 0 && writes(
            t.last(),
            seq![3u8],
        ),
        EnterState::Leave => looks(t) <= 20 && t.len() > 0 && t.last() is Pause,
        EnterState::LeavePause => looks(t) <= 20 && t.len() > 0 && writes(t.last(), seq![2u8]),
        EnterState::SettlePause { k } => k < 10 && k <= looks(t) <= 20 + k && t.len() > 0 && ((
        t.last() is ReadAvailable && !found_nothing(t.last())) || t.last() is Pause),
        EnterState::Settle { k } => k < 10 && k <= looks(t) <= 20 + k && t.len() > 0
            && t.last() is Pause,
        EnterState::Return => looks(t) <= 30 && t.len() > 0 && t.last() is ReadAvailable && (
        found_nothing(t.last()) || looks(t) >= 10),
        EnterState::RawOn => looks(t) <= 30 && t.len() > 0 && writes(t.last(), seq![13u8]),
        EnterState::Banner => looks(t) <= 30 && t.len() > 0 && writes(t.last(), seq![1u8]),
        EnterState::Reset => looks(t) <= 30 && t.len() > 0 && t.last() is ReadUntil,
        EnterState::Reboot => looks(t) <= 30 && t.len() > 0 && writes(t.last(), seq![4u8]),
        EnterState::BannerAgain => looks(t) <= 30 && t.len() > 0 && t.last() is ReadUntil,
        EnterState::Done(_) => looks(t) <= 30 && t.len() > 0,
    }
}

proof fn lemma_byte_differs()
    ensures
        seq![1u8][0] == 1 && seq![2u8][0] == 2 && seq![3u8][0] == 3 && seq![4u8][0] == 4
            && seq![13u8][0] == 13,
{
}

#[verifier::spinoff_prover]
proof fn lemma_enter_pace(timeout_ms: nat, soft_reset: bool, t: Seq<Exchange>, s: EnterState)
    requires
        connection::run(
            session::drained(0),
            session::enter_step(timeout_ms, soft_reset),
            t,
        ) == Some(s),
    ensures
        enter_pace(s, t, timeout_ms),
    decreases t.len(),
{
    let step = session::enter_step(timeout_ms, soft_reset);
    if t.len() > 0 {
        let p = t.drop_last();
        let before = connection::run(session::drained(0), step, p)->0;
        lemma_enter_pace(timeout_ms, soft_reset, p, before);
        lemma_byte_differs();
        if p.len() > 0 {
            assert(t[t.len() - 2] == p.last());
        }
    }
}

/// Whoever enters the raw REPL lets time pass after every interrupt and after leaving a
/// raw REPL that may have been open, waits for each answer as long as the session waits,
/// and lets the device fall silent first, for which it looks at most thirty times.
pub proof fn law_entering_lets_time_pass(
    pre: SessionView,
    soft_reset: bool,
    post: SessionView,
    r: Result<(), ErrorView>,
)
    requires
        session::enters(pre, soft_reset, post, r),
    ensures
        in_pace(session_laws::since(pre, post), entering_rule(pre.timeout_ms)),
        minds_old_output(session_laws::since(pre, post)),
        looks(session_laws::since(pre, post)) <= 30,
{
    lemma_enter_pace(
        pre.timeout_ms,
        soft_reset,
        session_laws::since(pre, post),
        EnterState::Done(r),
    );
}

// ---------------------------------------------------------------------------
// Submitting code
// ---------------------------------------------------------------------------

/// What may follow what in raw mode: a write of at most two hundred and fifty-six bytes,
/// and then a pause, or the answer of two bytes.
pub open spec fn raw_rule(ms: nat) -> spec_fn(Exchange, Exchange) -> bool {
    |a: Exchange, b: Exchange|
        match a {
            Exchange::Write { data, status: Ok(_) } => data.len() <= 256 && (b == (
            Exchange::Pause { ms: 10 }) || waits_for_bytes(b, 2, ms)),
            Exchange::Pause { .. } => b is Write,
            _ => false,
        }
}

/// Whether an exchange is a write that succeeded, of a part of the code at most.
spec fn small_write(x: Exchange) -> bool {
    x matches Exchange::Write { data, status: Ok(_) } && data.len() <= 256
}

spec fn raw_pace(s: RawState, t: Seq<Exchange>, ms: nat) -> bool {
    &&& in_pace(t, raw_rule(ms))
    &&& match s {
        RawState::Chunk { from } => t.len() == 0 || t.last() is Pause,
        RawState::ChunkPause { next } => t.len() > 0 && small_write(t.last()),
        RawState::End => t.len() == 0 || t.last() is Pause,
        RawState::Reply => t.len() > 0 && small_write(t.last()),
        RawState::Done(_) => t.len() > 0,
    }
}

#[verifier::spinoff_prover]
proof fn lemma_raw_pace(code: Seq<u8>, timeout_ms: nat, t: Seq<Exchange>, s: RawState)
    requires
        connection::run(
            session::raw_sending(code.len(), 0),
            session::raw_step(code, timeout_ms),
            t,
        ) == Some(s),
    ensures
        raw_pace(s, t, timeout_ms),
    decreases t.len(),
{
    let start = session::raw_sending(code.len(), 0);
    let step = session::raw_step(code, timeout_ms);
    if t.len() > 0 {
        let p = t.drop_last();
        let before = connection::run(start, step, p)->0;
        lemma_raw_pace(code, timeout_ms, p, before);
        if p.len() > 0 {
            assert(t[t.len() - 2] == p.last());
        }
    }
}

/// In raw mode time is let pass after each part of the code, and the answer is waited for
/// as long as the session waits.
pub proof fn law_raw_mode_lets_time_pass(
    pre: SessionView,
    code: Seq<u8>,
    post: SessionView,
    r: Result<(), ErrorView>,
)
    requires
        session::sends_raw(pre, code, post, r),
    ensures
        in_pace(session_laws::since(pre, post), raw_rule(pre.timeout_ms)),
{
    lemma_raw_pace(code, pre.timeout_ms, session_laws::since(pre, post), RawState::Done(r));
}

/// What may follow what in paste mode: after a write of at most two hundred and fifty-six
/// bytes a pause, the prompt or the end of the line; after each of these a write.
pub open spec fn paste_rule(ms: nat) -> spec_fn(Exchange, Exchange) -> bool {
    |a: Exchange, b: Exchange|
        match a {
            Exchange::Write { data, status: Ok(_) } => data.len() <= 256 && (b == (
            Exchange::Pause { ms: 2 }) || waits_for(b, "=== "@, ms) || waits_for(
                b,
                "\r\n"@,
                ms,
            )),
            Exchange::Pause { .. } => b is Write,
            Exchange::ReadUntil { reply: Ok(_), .. } => b is Write,
            _ => false,
        }
}

spec fn paste_pace(s: PasteState, t: Seq<Exchange>, ms: nat) -> bool {
    &&& in_pace(t, paste_rule(ms))
    &&& t.len() > 0 ==> writes(t[0], seq![5u8])
    &&& t.len() > 1 ==> waits_for(t[1], "=== "@, ms)
    &&& match s {
        PasteState::Open => t.len() == 0,
        PasteState::Prompt => t.len() == 1 && small_write(t.last()),
        PasteState::Chunk { from } => t.len() > 1 && (t.last() is Pause
            || t.last() matches Exchange::ReadUntil { reply: Ok(_), .. }),
        PasteState::ChunkPause { next } => t.len() > 1 && small_write(t.last()),
        PasteState::End => t.len() > 1 && (t.last() is Pause
            || t.last() matches Exchange::ReadUntil { reply: Ok(_), .. }),
        PasteState::Echo => t.len() > 1 && small_write(t.last()),
        PasteState::Done(r) => t.len() > 0 && (r is Ok ==> waits_for(t.last(), "\r\n"@, ms)),
    }
}

proof fn lemma_line_end_bytes()
    ensures
        vstd::utf8::encode_utf8("\r\n"@) == seq![13u8, 10u8],
{
    reveal_strlit("\r\n");
    let t = "\r\n"@;
    assert(vstd::utf8::is_ascii_chars(t));
    vstd::utf8::is_ascii_chars_encode_utf8(t);
    assert(vstd::utf8::encode_utf8(t) =~= seq![13u8, 10u8]);
}

#[verifier::spinoff_prover]
proof fn lemma_paste_pace(code: Seq<u8>, timeout_ms: nat, t: Seq<Exchange>, s: PasteState)
    requires
        connection::run(PasteState::Open, session::paste_step(code, timeout_ms), t) == Some(s),
    ensures
        paste_pace(s, t, timeout_ms),
    decreases t.len(),
{
    let step = session::paste_step(code, timeout_ms);
    if t.len() > 0 {
        let p = t.drop_last();
        let before = connection::run(PasteState::Open, step, p)->0;
        lemma_paste_pace(code, timeout_ms, p, before);
        lemma_line_end_bytes();
        if p.len() > 0 {
            assert(t[t.len() - 2] == p.last());
            assert(t[0] == p[0]);
        }
        if p.len() > 1 {
            assert(t[1] == p[1]);
        }
    }
}

/// In paste mode the prompt is waited for first, time is let pass after each part of the
/// code, and at the end of a submission that succeeds a line end was waited for; all of
/// this as long as the session waits.
pub proof fn law_paste_mode_lets_time_pass(
    pre: SessionView,
    code: Seq<u8>,
    post: SessionView,
    r: Result<(), ErrorView>,
)
    requires
        session::pastes(pre, code, post, r),
    ensures
        ({
            let t = session_laws::since(pre, post);
            &&& t.len() > 0
            &&& in_pace(t, paste_rule(pre.timeout_ms))
            &&& writes(t[0], seq![5u8])
            &&& t.len() > 1 ==> waits_for(t[1], "=== "@, pre.timeout_ms)
            &&& r is Ok ==> waits_for(t.last(), "\r\n"@, pre.timeout_ms)
        }),
{
    lemma_paste_pace(code, pre.timeout_ms, session_laws::since(pre, post), PasteState::Done(r));
}

/// What the reads of a raw paste look like: three seconds for the answer to the request,
/// and for a device that does not know it the prompt; then as long as the session waits,
/// but for one byte that some devices send behind the window.
pub open spec fn raw_paste_read(x: Exchange, i: int, ms: nat) -> bool {
    match x {
        Exchange::ReadExact { n, timeout_ms, .. } => {
            ||| i == 1 && n == 2 && timeout_ms == 3000
            ||| i == 2 && n == 2 && timeout_ms == ms
            ||| i == 4 && n == 1 && timeout_ms == 100
            ||| i > 2 && n == 1 && timeout_ms == ms
        },
        Exchange::ReadUntil { pattern, timeout_ms, .. } => i == 2 && pattern == seq![0x3eu8]
            && timeout_ms == 3000,
        Exchange::ReadAvailable { .. } => false,
        _ => true,
    }
}

/// Whether all reads of a record look so.
pub open spec fn raw_paste_reads(t: Seq<Exchange>, ms: nat) -> bool
    decreases t.len(),
{
    t.len() > 0 ==> raw_paste_reads(t.drop_last(), ms) && raw_paste_read(
        t.last(),
        t.len() - 1,
        ms,
    )
}

spec fn raw_paste_pace(s: RawPasteState, t: Seq<Exchange>, ms: nat) -> bool {
    &&& raw_paste_reads(t, ms)
    &&& match s {
        RawPasteState::Ask => t.len() == 0,
        RawPasteState::Answer => t.len() == 1,
        RawPasteState::Resync => t.len() == 2,
        RawPasteState::WindowSize => t.len() == 2,
        RawPasteState::Peek { .. } => t.len() == 3,
        RawPasteState::Extra { .. } => t.len() == 4,
        RawPasteState::Done(_) => true,
        _ => t.len() > 3,
    }
}

#[verifier::spinoff_prover]
proof fn lemma_raw_paste_pace(code: Seq<u8>, timeout_ms: nat, t: Seq<Exchange>, s: RawPasteState)
    requires
        connection::run(
            RawPasteState::Ask,
            session::raw_paste_step(code, timeout_ms),
            t,
        ) == Some(s),
    ensures
        raw_paste_pace(s, t, timeout_ms),
    decreases t.len(),
{
    let step = session::raw_paste_step(code, timeout_ms);
    if t.len() > 0 {
        let p = t.drop_last();
        let before = connection::run(RawPasteState::Ask, step, p)->0;
        lemma_raw_paste_pace(code, timeout_ms, p, before);
    }
}

/// A raw paste waits three seconds for the answer to its request, and then for each byte
/// of the device as long as the session waits.
pub proof fn law_raw_paste_waits_for_the_device(
    pre: SessionView,
    code: Seq<u8>,
    post: SessionView,
    r: Result<(), ErrorView>,
)
    requires
        session::raw_pastes(pre, code, post, r),
    ensures
        raw_paste_reads(session_laws::since(pre, post), pre.timeout_ms),
{
    lemma_raw_paste_pace(
        code,
        pre.timeout_ms,
        session_laws::since(pre, post),
        RawPasteState::Done(r),
    );
}

// ---------------------------------------------------------------------------
// Collecting output
// ---------------------------------------------------------------------------

/// What may follow what while output is collected: the clock is looked at, one byte is
/// waited for a tenth of a second, and the clock is looked at again.
pub open spec fn following_rule() -> spec_fn(Exchange, Exchange) -> bool {
    |a: Exchange, b: Exchange|
        match a {
            Exchange::Clock { .. } => b is Clock || waits_for_bytes(b, 1, 100),
            Exchange::ReadExact { .. } => b is Clock,
            _ => false,
        }
}

spec fn follow_pace(s: FollowState, t: Seq<Exchange>) -> bool {
    &&& in_pace(t, following_rule())
    &&& match s {
        FollowState::Start => t.len() == 0,
        FollowState::Check(_) => t.len() > 0 && (t.last() is Clock || t.last() is ReadExact),
        FollowState::Read(_) => t.len() > 1 && t.last() is Clock,
        FollowState::Done(_) => t.len() > 1,
    }
}

#[verifier::spinoff_prover]
proof fn lemma_follow_pace(timeout_ms: nat, t: Seq<Exchange>, s: FollowState)
    requires
        connection::run(FollowState::Start, session::follow_step(timeout_ms), t) == Some(s),
    ensures
        follow_pace(s, t),
    decreases t.len(),
{
    let step = session::follow_step(timeout_ms);
    if t.len() > 0 {
        let p = t.drop_last();
        let before = connection::run(FollowState::Start, step, p)->0;
        lemma_follow_pace(timeout_ms, p, before);
        if p.len() > 0 {
            assert(t[t.len() - 2] == p.last());
        }
    }
}

/// While output is collected the clock is looked at before every byte, and each byte is
/// waited for a tenth of a second.
pub proof fn law_collecting_looks_at_the_clock(
    pre: SessionView,
    timeout_ms: nat,
    post: SessionView,
    r: Result<Output, ErrorView>,
)
    requires
        session::follows(pre, timeout_ms, post, r),
    ensures
        in_pace(session_laws::since(pre, post), following_rule()),
{
    lemma_follow_pace(timeout_ms, session_laws::since(pre, post), FollowState::Done(r));
}

/// In a batch the prompt behind the output of each code is read away: one byte is waited
/// for a fifth of a second, whatever comes of it.
pub proof fn law_batch_reads_the_prompt_away(pre: SessionView, post: SessionView, out: Output)
    requires
        session::batch_step_submitted(pre, post, Ok(out)),
    ensures
        post.record.len() > 0,
        waits_for_bytes(post.record.last(), 1, 200),
{
}

} // verus!
