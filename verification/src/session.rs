//! What a session does: each operation as a machine that reads the record of the
//! connection.

use vstd::prelude::*;

use crate::connection;
use crate::connection::Exchange;
use crate::error::ErrorView;
use crate::hex;
use crate::protocol::SubmitMode;
use crate::protocol::CHUNK_SIZE;
use crate::protocol::CTRL_A;
use crate::protocol::CTRL_B;
use crate::protocol::CTRL_C;
use crate::protocol::CTRL_D;
use crate::protocol::CTRL_E;
use crate::protocol::FOLLOW_TIMEOUT_MS;
use crate::protocol::PASTE_DELAY_MS;
use crate::protocol::RAW_DELAY_MS;
use crate::unicode;

verus! {

/// The prompt of the raw REPL, with the banner before it.
pub open spec fn raw_repl_banner() -> Seq<u8> {
    vstd::utf8::encode_utf8("raw REPL; CTRL-B to exit\r\n>"@)
}

/// The message of a device that restarts.
pub open spec fn soft_reboot() -> Seq<u8> {
    vstd::utf8::encode_utf8("soft reboot\r\n"@)
}

/// The request for raw paste.
pub open spec fn raw_paste_request() -> Seq<u8> {
    seq![CTRL_E, 0x41u8, CTRL_A]
}

/// The answer of a device that does raw paste.
pub open spec fn raw_paste_supported() -> Seq<u8> {
    seq![0x52u8, 0x01u8]
}

/// The answer of a device that knows raw paste and does not do it.
pub open spec fn raw_paste_rejected() -> Seq<u8> {
    seq![0x52u8, 0x00u8]
}

/// The mathematical value of a session.
pub struct SessionView {
    /// How long the session waits for the device.
    pub timeout_ms: nat,
    /// Whether raw paste is still worth a try.
    pub use_raw_paste: bool,
    /// How code is submitted.
    pub submit_mode: SubmitMode,
    /// Whether the device is in the raw REPL.
    pub in_raw_repl: bool,
    /// The record of the connection.
    pub record: Seq<Exchange>,
}

impl SessionView {
    /// The session after one more exchange.
    pub open spec fn then_exchange(self, e: Exchange) -> SessionView {
        SessionView { record: self.record.push(e), ..self }
    }

    /// The session after a write.
    pub open spec fn then_write(self, data: Seq<u8>, status: Result<(), ErrorView>) -> SessionView {
        self.then_exchange(Exchange::Write { data, status })
    }

    /// The session once raw paste has failed.
    pub open spec fn without_raw_paste(self) -> SessionView {
        SessionView { use_raw_paste: false, submit_mode: SubmitMode::Raw, ..self }
    }

    /// The session with another record.
    pub open spec fn with_record(self, record: Seq<Exchange>) -> SessionView {
        SessionView { record, ..self }
    }
}

/// The mathematical value of an `ExecResult`.
pub struct Output {
    pub stdout: Seq<u8>,
    pub stderr: Seq<u8>,
}

// ---------------------------------------------------------------------------
// Entering the raw REPL
// ---------------------------------------------------------------------------

/// Where `enter_raw_repl` is.
pub enum EnterState {
    /// Dropping old output, after `k` rounds.
    Drain { k: nat },
    DrainPause { k: nat },
    /// Interrupting a running program, after `k` interrupts.
    Interrupt { k: nat },
    InterruptPause { k: nat },
    /// Leaving a raw REPL that may be open.
    Leave,
    LeavePause,
    /// Waiting until the device is quiet, after `k` rounds.
    SettlePause { k: nat },
    Settle { k: nat },
    /// Asking for the raw REPL.
    Return,
    RawOn,
    Banner,
    /// Restarting the device.
    Reset,
    Reboot,
    BannerAgain,
    Done(Result<(), ErrorView>),
}

/// After `k` rounds of dropping old output: at most 20 of them.
pub open spec fn drained(k: nat) -> EnterState {
    if k < 20 {
        EnterState::Drain { k }
    } else {
        EnterState::Interrupt { k: 0 }
    }
}

/// After `k` of 3 interrupts.
pub open spec fn interrupted(k: nat) -> EnterState {
    if k < 3 {
        EnterState::Interrupt { k }
    } else {
        EnterState::Leave
    }
}

/// After `k` rounds of waiting: at most 10 of them.
pub open spec fn settled(k: nat) -> EnterState {
    if k < 10 {
        EnterState::SettlePause { k }
    } else {
        EnterState::Return
    }
}

impl EnterState {
    /// The next state after an exchange that fails the whole with its own error.
    pub open spec fn unless_failed<T>(self, reply: Option<Result<T, ErrorView>>) -> Option<
        EnterState,
    > {
        match reply {
            Some(Ok(_)) => Some(self),
            Some(Err(e)) => Some(EnterState::Done(Err(e))),
            None => None,
        }
    }
}

/// How `enter_raw_repl` goes on after an exchange.
pub open spec fn enter_step(timeout_ms: nat, soft_reset: bool) -> spec_fn(
    EnterState,
    Exchange,
) -> Option<EnterState> {
    |s: EnterState, e: Exchange|
        match s {
            EnterState::Drain { k } => match e.available() {
                Some(Ok(data)) => if data.len() == 0 {
                    Some(EnterState::Interrupt { k: 0 })
                } else {
                    Some(EnterState::DrainPause { k })
                },
                reply => s.unless_failed(reply),
            },
            EnterState::DrainPause { k } => if e == (Exchange::Pause { ms: 10 }) {
                Some(drained(k + 1))
            } else {
                None
            },
            EnterState::Interrupt { k } => if e.wrote(seq![CTRL_C]) is Some {
                Some(EnterState::InterruptPause { k })
            } else {
                None
            },
            EnterState::InterruptPause { k } => if e == (Exchange::Pause { ms: 20 }) {
                Some(interrupted(k + 1))
            } else {
                None
            },
            EnterState::Leave => if e.wrote(seq![CTRL_B]) is Some {
                Some(EnterState::LeavePause)
            } else {
                None
            },
            EnterState::LeavePause => if e == (Exchange::Pause { ms: 50 }) {
                Some(settled(0))
            } else {
                None
            },
            EnterState::SettlePause { k } => if e == (Exchange::Pause { ms: 20 }) {
                Some(EnterState::Settle { k })
            } else {
                None
            },
            EnterState::Settle { k } => match e.available() {
                Some(Ok(data)) => if data.len() == 0 {
                    Some(EnterState::Return)
                } else {
                    Some(settled(k + 1))
                },
                reply => s.unless_failed(reply),
            },
            EnterState::Return => EnterState::RawOn.unless_failed(e.wrote(seq![0x0du8])),
            EnterState::RawOn => EnterState::Banner.unless_failed(e.wrote(seq![CTRL_A])),
            EnterState::Banner => (if soft_reset {
                EnterState::Reset
            } else {
                EnterState::Done(Ok(()))
            }).unless_failed(e.until(raw_repl_banner(), timeout_ms)),
            EnterState::Reset => EnterState::Reboot.unless_failed(e.wrote(seq![CTRL_D])),
            EnterState::Reboot => EnterState::BannerAgain.unless_failed(
                e.until(soft_reboot(), timeout_ms),
            ),
            EnterState::BannerAgain => EnterState::Done(Ok(())).unless_failed(
                e.until(raw_repl_banner(), timeout_ms),
            ),
            EnterState::Done(_) => None,
        }
}

/// `enter_raw_repl` started in `pre` and has come to `s`, with the session now `post`.
pub open spec fn entering(
    pre: SessionView,
    soft_reset: bool,
    post: SessionView,
    s: EnterState,
) -> bool {
    &&& connection::leads(
        drained(0),
        enter_step(pre.timeout_ms, soft_reset),
        pre.record,
        post.record,
        s,
    )
    &&& post == pre.with_record(post.record)
}

/// `enter_raw_repl` took a session from `pre` to `post` and gave `r`.
pub open spec fn enters(
    pre: SessionView,
    soft_reset: bool,
    post: SessionView,
    r: Result<(), ErrorView>,
) -> bool {
    &&& entering(pre, soft_reset, pre.with_record(post.record), EnterState::Done(r))
    &&& post == (SessionView {
        in_raw_repl: pre.in_raw_repl || r is Ok,
        record: post.record,
        ..pre
    })
}

/// `exit_raw_repl` took a session from `pre` to `post` and gave `r`: a carriage
/// return and CTRL-B are written, up to the first write that fails.
pub open spec fn exits(pre: SessionView, post: SessionView, r: Result<(), ErrorView>) -> bool {
    let sent_return = pre.then_write(seq![0x0du8], Ok(()));
    match r {
        Ok(_) => post == (SessionView {
            in_raw_repl: false,
            ..sent_return.then_write(seq![CTRL_B], Ok(()))
        }),
        Err(e) => {
            ||| post == pre.then_write(seq![0x0du8], Err(e))
            ||| post == sent_return.then_write(seq![CTRL_B], Err(e))
        },
    }
}

// ---------------------------------------------------------------------------
// Submitting code
// ---------------------------------------------------------------------------

/// Where a run of `n` bytes that starts at `from` ends in `len` bytes.
pub open spec fn chunk_end(len: nat, from: nat, n: nat) -> nat {
    if from + n < len {
        from + n
    } else {
        len
    }
}

/// The state of flow control: the window size, how many bytes were sent, how many
/// may still be sent, and how often the device has granted another window.
pub struct Flow {
    pub window: nat,
    pub sent: nat,
    pub left: nat,
    pub grants: nat,
}

/// Where a submission by raw paste is.
pub enum RawPasteState {
    Ask,
    Answer,
    /// Looking for the prompt of a device that does not know raw paste.
    Resync,
    WindowSize,
    /// Looking for one more byte that some devices send after the window size.
    Peek { window: nat },
    Extra { window: nat },
    /// Asking whether the device has sent a control byte.
    Poll(Flow),
    /// Reading a control byte.
    Control(Flow),
    Send(Flow),
    Abort,
    Finish,
    Ack,
    Done(Result<(), ErrorView>),
}

impl RawPasteState {
    /// The next state after an exchange that fails the whole with its own error.
    pub open spec fn unless_failed<T>(self, reply: Option<Result<T, ErrorView>>) -> Option<
        RawPasteState,
    > {
        match reply {
            Some(Ok(_)) => Some(self),
            Some(Err(e)) => Some(RawPasteState::Done(Err(e))),
            None => None,
        }
    }
}

/// What comes next while `len` bytes are sent.
pub open spec fn flowing(len: nat, f: Flow) -> RawPasteState {
    if f.sent >= len {
        RawPasteState::Finish
    } else if f.left == 0 {
        RawPasteState::Control(f)
    } else {
        RawPasteState::Poll(f)
    }
}

/// Nothing sent yet.
pub open spec fn fresh_flow(window: nat) -> Flow {
    Flow { window, sent: 0, left: window, grants: 0 }
}

/// A protocol error with a message.
pub open spec fn protocol_failure(msg: Seq<char>) -> Result<(), ErrorView> {
    Err(ErrorView::Protocol(msg))
}

/// After the device has sent the control byte `b`.
pub open spec fn after_control(f: Flow, b: u8) -> RawPasteState {
    if b == CTRL_A {
        if f.grants < u64::MAX {
            RawPasteState::Send(Flow { left: f.left + f.window, grants: f.grants + 1, ..f })
        } else {
            RawPasteState::Done(protocol_failure("raw-paste window never opened"@))
        }
    } else if b == CTRL_D {
        RawPasteState::Abort
    } else {
        RawPasteState::Done(
            protocol_failure("unexpected byte during raw-paste: 0x"@ + hex::hex_byte(b)),
        )
    }
}

/// How a submission of `code` by raw paste goes on after an exchange.
pub open spec fn raw_paste_step(code: Seq<u8>, timeout_ms: nat) -> spec_fn(
    RawPasteState,
    Exchange,
) -> Option<RawPasteState> {
    |s: RawPasteState, e: Exchange|
        match s {
            RawPasteState::Ask => RawPasteState::Answer.unless_failed(
                e.wrote(raw_paste_request()),
            ),
            RawPasteState::Answer => match e.exact(2, 3000) {
                Some(Ok(data)) => if data == raw_paste_rejected() {
                    Some(RawPasteState::Done(protocol_failure("device rejected raw-paste"@)))
                } else if data == raw_paste_supported() {
                    Some(RawPasteState::WindowSize)
                } else {
                    Some(RawPasteState::Resync)
                },
                reply => s.unless_failed(reply),
            },
            RawPasteState::Resync => if e.until(seq![0x3eu8], 3000) is Some {
                Some(RawPasteState::Done(protocol_failure("device does not support raw-paste"@)))
            } else {
                None
            },
            RawPasteState::WindowSize => match e.exact(2, timeout_ms) {
                Some(Ok(data)) => Some(
                    RawPasteState::Peek { window: (data[0] + 256 * data[1]) as nat },
                ),
                reply => s.unless_failed(reply),
            },
            RawPasteState::Peek { window } => match e.incoming() {
                Some(true) => Some(flowing(code.len(), fresh_flow(window))),
                Some(false) => Some(RawPasteState::Extra { window }),
                None => None,
            },
            RawPasteState::Extra { window } => if e.exact(1, 100) is Some {
                Some(flowing(code.len(), fresh_flow(window)))
            } else {
                None
            },
            RawPasteState::Poll(f) => match e.incoming() {
                Some(true) => Some(RawPasteState::Send(f)),
                Some(false) => Some(RawPasteState::Control(f)),
                None => None,
            },
            RawPasteState::Control(f) => match e.exact(1, timeout_ms) {
                Some(Ok(data)) => Some(after_control(f, data[0])),
                reply => s.unless_failed(reply),
            },
            RawPasteState::Send(f) => {
                let end = chunk_end(code.len(), f.sent, f.left);
                flowing(
                    code.len(),
                    Flow { sent: end, left: (f.left + f.sent - end) as nat, ..f },
                ).unless_failed(e.wrote(code.subrange(f.sent as int, end as int)))
            },
            RawPasteState::Abort => RawPasteState::Done(
                protocol_failure("device aborted raw-paste transfer"@),
            ).unless_failed(e.wrote(seq![CTRL_D])),
            RawPasteState::Finish => RawPasteState::Ack.unless_failed(e.wrote(seq![CTRL_D])),
            RawPasteState::Ack => match e.exact(1, timeout_ms) {
                Some(Ok(data)) => Some(
                    RawPasteState::Done(
                        if data[0] == CTRL_D {
                            Ok(())
                        } else {
                            protocol_failure(
                                "expected CTRL-D ack after raw-paste, got 0x"@ + hex::hex_byte(
                                    data[0],
                                ),
                            )
                        },
                    ),
                ),
                reply => s.unless_failed(reply),
            },
            RawPasteState::Done(_) => None,
        }
}

/// A submission by raw paste started in `pre` and has come to `s`.
pub open spec fn raw_pasting(
    pre: SessionView,
    code: Seq<u8>,
    post: SessionView,
    s: RawPasteState,
) -> bool {
    &&& connection::leads(
        RawPasteState::Ask,
        raw_paste_step(code, pre.timeout_ms),
        pre.record,
        post.record,
        s,
    )
    &&& post == pre.with_record(post.record)
}

/// A submission by raw paste took a session from `pre` to `post` and gave `r`.
pub open spec fn raw_pastes(
    pre: SessionView,
    code: Seq<u8>,
    post: SessionView,
    r: Result<(), ErrorView>,
) -> bool {
    raw_pasting(pre, code, post, RawPasteState::Done(r))
}

/// Where a submission in raw mode is.
pub enum RawState {
    Chunk { from: nat },
    ChunkPause { next: nat },
    End,
    Reply,
    Done(Result<(), ErrorView>),
}

impl RawState {
    /// The next state after an exchange that fails the whole with its own error.
    pub open spec fn unless_failed<T>(self, reply: Option<Result<T, ErrorView>>) -> Option<
        RawState,
    > {
        match reply {
            Some(Ok(_)) => Some(self),
            Some(Err(e)) => Some(RawState::Done(Err(e))),
            None => None,
        }
    }
}

/// What comes next in raw mode after the first `from` of `len` bytes.
pub open spec fn raw_sending(len: nat, from: nat) -> RawState {
    if from < len {
        RawState::Chunk { from }
    } else {
        RawState::End
    }
}

/// How a submission of `code` in raw mode goes on after an exchange.
pub open spec fn raw_step(code: Seq<u8>, timeout_ms: nat) -> spec_fn(RawState, Exchange) -> Option<
    RawState,
> {
    |s: RawState, e: Exchange|
        match s {
            RawState::Chunk { from } => {
                let end = chunk_end(code.len(), from, CHUNK_SIZE as nat);
                RawState::ChunkPause { next: end }.unless_failed(
                    e.wrote(code.subrange(from as int, end as int)),
                )
            },
            RawState::ChunkPause { next } => if e == (Exchange::Pause {
                ms: RAW_DELAY_MS as nat,
            }) {
                Some(raw_sending(code.len(), next))
            } else {
                None
            },
            RawState::End => RawState::Reply.unless_failed(e.wrote(seq![CTRL_D])),
            RawState::Reply => match e.exact(2, timeout_ms) {
                Some(Ok(data)) => Some(
                    RawState::Done(
                        if data == seq![0x4fu8, 0x4bu8] {
                            Ok(())
                        } else {
                            protocol_failure(
                                "expected OK after raw submit, got "@ + unicode::debug_quoted(
                                    unicode::text_of(data),
                                ),
                            )
                        },
                    ),
                ),
                reply => s.unless_failed(reply),
            },
            RawState::Done(_) => None,
        }
}

/// A submission in raw mode started in `pre` and has come to `s`.
pub open spec fn sending_raw(
    pre: SessionView,
    code: Seq<u8>,
    post: SessionView,
    s: RawState,
) -> bool {
    &&& connection::leads(
        raw_sending(code.len(), 0),
        raw_step(code, pre.timeout_ms),
        pre.record,
        post.record,
        s,
    )
    &&& post == pre.with_record(post.record)
}

/// A submission in raw mode took a session from `pre` to `post` and gave `r`.
pub open spec fn sends_raw(
    pre: SessionView,
    code: Seq<u8>,
    post: SessionView,
    r: Result<(), ErrorView>,
) -> bool {
    sending_raw(pre, code, post, RawState::Done(r))
}

/// Where a submission in paste mode is.
pub enum PasteState {
    Open,
    Prompt,
    Chunk { from: nat },
    ChunkPause { next: nat },
    End,
    Echo,
    Done(Result<(), ErrorView>),
}

impl PasteState {
    /// The next state after an exchange that fails the whole with its own error.
    pub open spec fn unless_failed<T>(self, reply: Option<Result<T, ErrorView>>) -> Option<
        PasteState,
    > {
        match reply {
            Some(Ok(_)) => Some(self),
            Some(Err(e)) => Some(PasteState::Done(Err(e))),
            None => None,
        }
    }
}

/// What comes next in paste mode after the first `from` of `len` bytes.
pub open spec fn paste_sending(len: nat, from: nat) -> PasteState {
    if from < len {
        PasteState::Chunk { from }
    } else {
        PasteState::End
    }
}

/// The prompt of paste mode.
pub open spec fn paste_prompt() -> Seq<u8> {
    vstd::utf8::encode_utf8("=== "@)
}

/// How a submission of `code` in paste mode goes on after an exchange.
pub open spec fn paste_step(code: Seq<u8>, timeout_ms: nat) -> spec_fn(
    PasteState,
    Exchange,
) -> Option<PasteState> {
    |s: PasteState, e: Exchange|
        match s {
            PasteState::Open => PasteState::Prompt.unless_failed(e.wrote(seq![CTRL_E])),
            PasteState::Prompt => paste_sending(code.len(), 0).unless_failed(
                e.until(paste_prompt(), timeout_ms),
            ),
            PasteState::Chunk { from } => {
                let end = chunk_end(code.len(), from, CHUNK_SIZE as nat);
                PasteState::ChunkPause { next: end }.unless_failed(
                    e.wrote(code.subrange(from as int, end as int)),
                )
            },
            PasteState::ChunkPause { next } => if e == (Exchange::Pause {
                ms: PASTE_DELAY_MS as nat,
            }) {
                Some(paste_sending(code.len(), next))
            } else {
                None
            },
            PasteState::End => PasteState::Echo.unless_failed(e.wrote(seq![CTRL_D])),
            PasteState::Echo => PasteState::Done(Ok(())).unless_failed(
                e.until(seq![0x0du8, 0x0au8], timeout_ms),
            ),
            PasteState::Done(_) => None,
        }
}

/// A submission in paste mode started in `pre` and has come to `s`.
pub open spec fn pasting(
    pre: SessionView,
    code: Seq<u8>,
    post: SessionView,
    s: PasteState,
) -> bool {
    &&& connection::leads(
        PasteState::Open,
        paste_step(code, pre.timeout_ms),
        pre.record,
        post.record,
        s,
    )
    &&& post == pre.with_record(post.record)
}

/// A submission in paste mode took a session from `pre` to `post` and gave `r`.
pub open spec fn pastes(
    pre: SessionView,
    code: Seq<u8>,
    post: SessionView,
    r: Result<(), ErrorView>,
) -> bool {
    pasting(pre, code, post, PasteState::Done(r))
}

/// After raw paste has failed: the raw REPL is left and entered again, and the
/// code is sent in raw mode.
pub open spec fn falls_back(
    pre: SessionView,
    code: Seq<u8>,
    post: SessionView,
    r: Result<(), ErrorView>,
) -> bool {
    exists|a: SessionView, ra: Result<(), ErrorView>| #[trigger]
        exits(pre, a, ra) && match ra {
            Err(e) => post == a && r == Err::<(), ErrorView>(e),
            Ok(_) => exists|b: SessionView, rb: Result<(), ErrorView>| #[trigger]
                enters(a, false, b, rb) && match rb {
                    Err(e) => post == b && r == Err::<(), ErrorView>(e),
                    Ok(_) => sends_raw(b, code, post, r),
                },
        }
}

/// `submit_code` took a session from `pre` to `post` and gave `r`.
pub open spec fn submits(
    pre: SessionView,
    code: Seq<u8>,
    post: SessionView,
    r: Result<(), ErrorView>,
) -> bool {
    match pre.submit_mode {
        SubmitMode::RawPaste => if pre.use_raw_paste {
            exists|mid: SessionView, first: Result<(), ErrorView>| #[trigger]
                raw_pastes(pre, code, mid, first) && match first {
                    Ok(_) => post == mid && r is Ok,
                    Err(_) => falls_back(mid.without_raw_paste(), code, post, r),
                }
        } else {
            sends_raw(pre, code, post, r)
        },
        SubmitMode::Paste => pastes(pre, code, post, r),
        SubmitMode::Raw => sends_raw(pre, code, post, r),
    }
}

// ---------------------------------------------------------------------------
// Collecting output
// ---------------------------------------------------------------------------

/// What was collected, and until when collecting may go on.
pub struct Collected {
    pub deadline: nat,
    /// Whether standard output has ended.
    pub seen: bool,
    pub stdout: Seq<u8>,
    pub stderr: Seq<u8>,
}

/// Where `follow` is.
pub enum FollowState {
    Start,
    Check(Collected),
    Read(Collected),
    Done(Result<Output, ErrorView>),
}

/// After the byte `b`: CTRL-D ends standard output, then error output.
pub open spec fn after_byte(c: Collected, b: u8) -> FollowState {
    if b == CTRL_D {
        if !c.seen {
            FollowState::Check(Collected { seen: true, ..c })
        } else {
            FollowState::Done(Ok(Output { stdout: c.stdout, stderr: c.stderr }))
        }
    } else if c.seen {
        FollowState::Check(Collected { stderr: c.stderr.push(b), ..c })
    } else {
        FollowState::Check(Collected { stdout: c.stdout.push(b), ..c })
    }
}

/// How `follow` goes on after an exchange.
pub open spec fn follow_step(timeout_ms: nat) -> spec_fn(FollowState, Exchange) -> Option<
    FollowState,
> {
    |s: FollowState, e: Exchange|
        match s {
            FollowState::Start => match e.time() {
                Some(t) => Some(
                    FollowState::Check(
                        Collected {
                            deadline: connection::clock_value(t + timeout_ms),
                            seen: false,
                            stdout: Seq::empty(),
                            stderr: Seq::empty(),
                        },
                    ),
                ),
                None => None,
            },
            FollowState::Check(c) => match e.time() {
                Some(t) => if t >= c.deadline {
                    Some(
                        FollowState::Done(
                            Err(ErrorView::Timeout("timeout waiting for execution output"@)),
                        ),
                    )
                } else {
                    Some(FollowState::Read(c))
                },
                None => None,
            },
            FollowState::Read(c) => match e.exact(1, 100) {
                Some(Ok(data)) => Some(after_byte(c, data[0])),
                Some(Err(ErrorView::Timeout(_))) => Some(FollowState::Check(c)),
                Some(Err(x)) => Some(FollowState::Done(Err(x))),
                None => None,
            },
            FollowState::Done(_) => None,
        }
}

/// `follow` started in `pre` and has come to `s`.
pub open spec fn following(
    pre: SessionView,
    timeout_ms: nat,
    post: SessionView,
    s: FollowState,
) -> bool {
    &&& connection::leads(
        FollowState::Start,
        follow_step(timeout_ms),
        pre.record,
        post.record,
        s,
    )
    &&& post == pre.with_record(post.record)
}

/// `follow` took a session from `pre` to `post` and gave `r`.
pub open spec fn follows(
    pre: SessionView,
    timeout_ms: nat,
    post: SessionView,
    r: Result<Output, ErrorView>,
) -> bool {
    following(pre, timeout_ms, post, FollowState::Done(r))
}

// ---------------------------------------------------------------------------
// Executing code
// ---------------------------------------------------------------------------

/// `exec_raw` took a session from `pre` to `post` and gave `r`: the raw REPL is
/// entered, the code submitted, its output collected and the raw REPL left, up to
/// the first of these that fails.
pub open spec fn executes(
    pre: SessionView,
    code: Seq<u8>,
    post: SessionView,
    r: Result<Output, ErrorView>,
) -> bool {
    exists|a: SessionView, ra: Result<(), ErrorView>| #[trigger]
        enters(pre, false, a, ra) && match ra {
            Err(e) => post == a && r == Err::<Output, ErrorView>(e),
            Ok(_) => executes_entered(a, code, post, r),
        }
}

/// What `executes` says from the raw REPL on.
pub open spec fn executes_entered(
    pre: SessionView,
    code: Seq<u8>,
    post: SessionView,
    r: Result<Output, ErrorView>,
) -> bool {
    exists|b: SessionView, rb: Result<(), ErrorView>| #[trigger]
        submits(pre, code, b, rb) && match rb {
            Err(e) => post == b && r == Err::<Output, ErrorView>(e),
            Ok(_) => executes_submitted(b, post, r),
        }
}

/// What `executes` says from the submission on.
pub open spec fn executes_submitted(
    pre: SessionView,
    post: SessionView,
    r: Result<Output, ErrorView>,
) -> bool {
    exists|c: SessionView, rc: Result<Output, ErrorView>| #[trigger]
        follows(pre, FOLLOW_TIMEOUT_MS as nat, c, rc) && match rc {
            Err(e) => post == c && r == Err::<Output, ErrorView>(e),
            Ok(out) => exists|rd: Result<(), ErrorView>| #[trigger]
                exits(c, post, rd) && r == (match rd {
                    Ok(_) => Ok::<Output, ErrorView>(out),
                    Err(e) => Err(e),
                }),
        }
}

/// One code of a batch took a session from `pre` to `post` and gave `r`: it is
/// submitted by raw paste, its output is collected, and the prompt that follows
/// is read away.
pub open spec fn batch_step(
    pre: SessionView,
    code: Seq<u8>,
    post: SessionView,
    r: Result<Output, ErrorView>,
) -> bool {
    exists|a: SessionView, ra: Result<(), ErrorView>| #[trigger]
        raw_pastes(pre, code, a, ra) && match ra {
            Err(e) => post == a && r == Err::<Output, ErrorView>(e),
            Ok(_) => batch_step_submitted(a, post, r),
        }
}

/// What `batch_step` says from the submission on.
pub open spec fn batch_step_submitted(
    pre: SessionView,
    post: SessionView,
    r: Result<Output, ErrorView>,
) -> bool {
    exists|b: SessionView, rb: Result<Output, ErrorView>| #[trigger]
        follows(pre, FOLLOW_TIMEOUT_MS as nat, b, rb) && match rb {
            Err(e) => post == b && r == Err::<Output, ErrorView>(e),
            Ok(out) => {
                &&& post.record.len() > 0
                &&& post == b.then_exchange(post.record.last())
                &&& post.record.last().exact(1, 200) is Some
                &&& r == Ok::<Output, ErrorView>(out)
            },
        }
}

/// The codes of a batch, one after the other, took a session from `pre` to `post`
/// and gave `r`: their outputs, or the first error, after which nothing is done.
pub open spec fn batch_steps(
    pre: SessionView,
    codes: Seq<Seq<u8>>,
    post: SessionView,
    r: Result<Seq<Output>, ErrorView>,
) -> bool
    decreases codes.len(),
{
    if codes.len() == 0 {
        post == pre && r == Ok::<Seq<Output>, ErrorView>(Seq::empty())
    } else {
        exists|m: SessionView, rm: Result<Seq<Output>, ErrorView>|
            batch_steps(pre, codes.drop_last(), m, rm) && #[trigger] batch_goes_on(
                m,
                rm,
                codes.last(),
                post,
                r,
            )
    }
}

/// One more code of a batch, after the codes before it gave `rm`.
pub open spec fn batch_goes_on(
    m: SessionView,
    rm: Result<Seq<Output>, ErrorView>,
    code: Seq<u8>,
    post: SessionView,
    r: Result<Seq<Output>, ErrorView>,
) -> bool {
    match rm {
        Err(e) => post == m && r == rm,
        Ok(done) => exists|ro: Result<Output, ErrorView>| #[trigger]
            batch_step(m, code, post, ro) && r == (match ro {
                Ok(out) => Ok::<Seq<Output>, ErrorView>(done.push(out)),
                Err(e) => Err(e),
            }),
    }
}

/// After an error nothing more is done.
pub proof fn lemma_batch_failed(
    pre: SessionView,
    codes: Seq<Seq<u8>>,
    k: int,
    post: SessionView,
    e: ErrorView,
)
    requires
        0 <= k <= codes.len(),
        batch_steps(pre, codes.take(k), post, Err(e)),
    ensures
        batch_steps(pre, codes, post, Err(e)),
    decreases codes.len(),
{
    if k == codes.len() {
        assert(codes.take(k) =~= codes);
    } else {
        assert(codes.drop_last().take(k) =~= codes.take(k));
        lemma_batch_failed(pre, codes.drop_last(), k, post, e);
        assert(batch_goes_on(post, Err(e), codes.last(), post, Err(e)));
    }
}

/// `exec_raw_batch` took a session from `pre` to `post` and gave `r`: the raw REPL
/// is entered once, every code is run in it, and it is left, up to the first of
/// these that fails.
pub open spec fn executes_batch(
    pre: SessionView,
    codes: Seq<Seq<u8>>,
    post: SessionView,
    r: Result<Seq<Output>, ErrorView>,
) -> bool {
    exists|a: SessionView, ra: Result<(), ErrorView>| #[trigger]
        enters(pre, false, a, ra) && match ra {
            Err(e) => post == a && r == Err::<Seq<Output>, ErrorView>(e),
            Ok(_) => executes_batch_entered(a, codes, post, r),
        }
}

/// What `executes_batch` says from the raw REPL on.
pub open spec fn executes_batch_entered(
    pre: SessionView,
    codes: Seq<Seq<u8>>,
    post: SessionView,
    r: Result<Seq<Output>, ErrorView>,
) -> bool {
    exists|b: SessionView, rb: Result<Seq<Output>, ErrorView>| #[trigger]
        batch_steps(pre, codes, b, rb) && match rb {
            Err(e) => post == b && r == rb,
            Ok(outs) => exists|rd: Result<(), ErrorView>| #[trigger]
                exits(b, post, rd) && r == (match rd {
                    Ok(_) => Ok::<Seq<Output>, ErrorView>(outs),
                    Err(e) => Err(e),
                }),
        }
}

} // verus!
