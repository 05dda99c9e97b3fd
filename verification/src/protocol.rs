//! The raw REPL protocol: entering and leaving the raw REPL, submitting code by
//! raw paste, paste or raw mode, and collecting what the code prints.

use vstd::prelude::*;
use vstd::slice::slice_subrange;

use crate::connection;
use crate::connection::Connection;
use crate::error;
use crate::error::ErrorView;
use crate::error::MpError;
use crate::hex;
use crate::hex::push_hex_byte;
use crate::session;
use crate::session::Collected;
use crate::session::EnterState;
use crate::session::Flow;
use crate::session::FollowState;
use crate::session::Output;
use crate::session::PasteState;
use crate::session::RawPasteState;
use crate::session::RawState;
use crate::session::SessionView;
use crate::unicode;
use crate::unicode::debug_string;
use crate::unicode::lossy_string;

verus! {

broadcast use crate::connection::lemma_leads_on;

// Control characters
pub const CTRL_A: u8 = 0x01;

pub const CTRL_B: u8 = 0x02;

pub const CTRL_C: u8 = 0x03;

pub const CTRL_D: u8 = 0x04;

pub const CTRL_E: u8 = 0x05;

/// How long a session waits for the device, unless it was told otherwise.
pub const DEFAULT_TIMEOUT_MS: u64 = 10_000;

/// How many bytes paste and raw mode send at a time.
pub const CHUNK_SIZE: usize = 256;

/// The pause after each of these chunks in raw mode.
pub const RAW_DELAY_MS: u64 = 10;

/// The pause after each of these chunks in paste mode.
pub const PASTE_DELAY_MS: u64 = 2;

/// How long code may run.
pub const FOLLOW_TIMEOUT_MS: u64 = 30_000;

/// The output of executing code on the device.
#[derive(Debug)]
pub struct ExecResult {
    pub stdout: Vec<u8>,
    pub stderr: Vec<u8>,
}

impl View for ExecResult {
    type V = Output;

    open spec fn view(&self) -> Output {
        Output { stdout: self.stdout@, stderr: self.stderr@ }
    }
}

impl Default for ExecResult {
    fn default() -> (r: ExecResult)
        ensures
            r@ == (Output { stdout: Seq::empty(), stderr: Seq::empty() }),
    {
        ExecResult { stdout: Vec::new(), stderr: Vec::new() }
    }
}

impl ExecResult {
    /// What the code printed, as text.
    pub fn stdout_str(&self) -> (r: String)
        ensures
            r@ == unicode::text_of(self@.stdout),
    {
        lossy_string(self.stdout.as_slice())
    }

    /// The error output, as text.
    pub fn stderr_str(&self) -> (r: String)
        ensures
            r@ == unicode::text_of(self@.stderr),
    {
        lossy_string(self.stderr.as_slice())
    }

    /// Whether there is error output.
    pub fn is_error(&self) -> (r: bool)
        ensures
            r == (self@.stderr.len() > 0),
    {
        !self.stderr.is_empty()
    }
}

/// Which submit mode to use for sending code.
#[derive(Debug, Clone, Copy, PartialEq, Eq, Structural)]
pub enum SubmitMode {
    /// Flow-controlled raw-paste (fastest, preferred for serial)
    RawPaste,
    /// Paste mode via CTRL-E (good for WebREPL)
    Paste,
    /// Slow 256-byte chunked raw mode (fallback)
    Raw,
}

/// REPL session managing the state machine over a Connection.
pub struct ReplSession<C: Connection> {
    conn: C,
    timeout_ms: u64,
    use_raw_paste: bool,
    submit_mode: SubmitMode,
    in_raw_repl: bool,
}

impl<C: Connection> View for ReplSession<C> {
    type V = SessionView;

    closed spec fn view(&self) -> SessionView {
        SessionView {
            timeout_ms: self.timeout_ms as nat,
            use_raw_paste: self.use_raw_paste,
            submit_mode: self.submit_mode,
            in_raw_repl: self.in_raw_repl,
            record: self.conn.record(),
        }
    }
}

impl<C: Connection> ReplSession<C> {
    /// The connection.
    pub closed spec fn connection(&self) -> C {
        self.conn
    }

    /// A session over a connection.
    pub fn new(conn: C) -> (r: Self)
        ensures
            r.connection() == conn,
            r@ == (SessionView {
                timeout_ms: 10_000,
                use_raw_paste: true,
                submit_mode: SubmitMode::RawPaste,
                in_raw_repl: false,
                record: conn.record(),
            }),
    {
        Self::with_timeout(conn, DEFAULT_TIMEOUT_MS)
    }

    /// A session that waits `timeout_ms` milliseconds for the device.
    pub fn with_timeout(conn: C, timeout_ms: u64) -> (r: Self)
        ensures
            r.connection() == conn,
            r@ == (SessionView {
                timeout_ms: timeout_ms as nat,
                use_raw_paste: true,
                submit_mode: SubmitMode::RawPaste,
                in_raw_repl: false,
                record: conn.record(),
            }),
    {
        ReplSession {
            conn,
            timeout_ms,
            use_raw_paste: true,
            submit_mode: SubmitMode::RawPaste,
            in_raw_repl: false,
        }
    }

    /// The connection, for direct use.
    pub fn conn(&mut self) -> (r: &mut C)
        ensures
            *r == old(self).connection(),
            (*r).record() == old(self)@.record,
            final(self).connection() == *final(r),
            final(self)@ == old(self)@.with_record(final(r).record()),
    {
        &mut self.conn
    }

    /// Whether the device is in the raw REPL.
    pub fn in_raw_repl(&self) -> (r: bool)
        ensures
            r == self@.in_raw_repl,
    {
        self.in_raw_repl
    }

    fn write_byte(&mut self, b: u8) -> (r: Result<(), MpError>)
        ensures
            final(self)@ == old(self)@.then_write(seq![b], error::outcome(r)),
    {
        let mut data: Vec<u8> = Vec::new();
        data.push(b);
        assert(data@ =~= seq![b]);
        self.conn.write_all(data.as_slice())
    }

    /// Enter raw REPL mode. If `soft_reset` is true, sends CTRL-D for a reboot.
    ///
    /// Whatever state the device was left in, old output is dropped and a running
    /// program is interrupted first.
    pub fn enter_raw_repl(&mut self, soft_reset: bool) -> (r: Result<(), MpError>)
        ensures
            session::enters(old(self)@, soft_reset, final(self)@, error::outcome(r)),
    {
        let ghost pre = self@;
        proof {
            connection::lemma_leads_nowhere(
                session::drained(0),
                session::enter_step(pre.timeout_ms, soft_reset),
                pre.record,
            );
        }

        // Drop all pending output.
        let mut k: u64 = 0;
        while k < 20
            invariant
                k <= 20,
                pre == old(self)@,
                session::entering(pre, soft_reset, self@, session::drained(k as nat)),
            decreases 20 - k,
        {
            match self.conn.read_all_available() {
                Err(e) => {
                    assert(session::entering(pre, soft_reset, self@, EnterState::Done(Err(e@))));
                    return Err(e);
                },
                Ok(data) => {
                    if data.is_empty() {
                        k = 20;
                    } else {
                        assert(session::entering(pre, soft_reset, self@, EnterState::DrainPause { k: k as nat }));
                        self.conn.pause(10);
                        k = k + 1;
                    }
                },
            }
        }

        // Interrupt a running program.
        let mut k: u64 = 0;
        while k < 3
            invariant
                k <= 3,
                pre == old(self)@,
                session::entering(pre, soft_reset, self@, session::interrupted(k as nat)),
            decreases 3 - k,
        {
            let _ = self.write_byte(CTRL_C);
            assert(session::entering(pre, soft_reset, self@, EnterState::InterruptPause { k: k as nat }));
            self.conn.pause(20);
            k = k + 1;
        }

        // Leave the raw REPL if it is open.
        let _ = self.write_byte(CTRL_B);
        assert(session::entering(pre, soft_reset, self@, EnterState::LeavePause));
        self.conn.pause(50);

        // Wait until the device is quiet.
        let mut k: u64 = 0;
        while k < 10
            invariant
                k <= 10,
                pre == old(self)@,
                session::entering(pre, soft_reset, self@, session::settled(k as nat)),
            decreases 10 - k,
        {
            self.conn.pause(20);
            assert(session::entering(pre, soft_reset, self@, EnterState::Settle { k: k as nat }));
            match self.conn.read_all_available() {
                Err(e) => {
                    assert(session::entering(pre, soft_reset, self@, EnterState::Done(Err(e@))));
                    return Err(e);
                },
                Ok(data) => {
                    if data.is_empty() {
                        k = 10;
                    } else {
                        k = k + 1;
                    }
                },
            }
        }

        // Ask for the raw REPL.
        match self.write_byte(0x0d) {
            Err(e) => {
                assert(session::entering(pre, soft_reset, self@, EnterState::Done(Err(e@))));
                return Err(e);
            },
            Ok(_) => {},
        }
        assert(session::entering(pre, soft_reset, self@, EnterState::RawOn));
        match self.write_byte(CTRL_A) {
            Err(e) => {
                assert(session::entering(pre, soft_reset, self@, EnterState::Done(Err(e@))));
                return Err(e);
            },
            Ok(_) => {},
        }
        assert(session::entering(pre, soft_reset, self@, EnterState::Banner));
        match self.conn.read_until("raw REPL; CTRL-B to exit\r\n>".as_bytes(), self.timeout_ms) {
            Err(e) => {
                assert(session::entering(pre, soft_reset, self@, EnterState::Done(Err(e@))));
                return Err(e);
            },
            Ok(_) => {},
        }

        if soft_reset {
            assert(session::entering(pre, soft_reset, self@, EnterState::Reset));
            match self.write_byte(CTRL_D) {
                Err(e) => {
                    assert(session::entering(pre, soft_reset, self@, EnterState::Done(Err(e@))));
                    return Err(e);
                },
                Ok(_) => {},
            }
            assert(session::entering(pre, soft_reset, self@, EnterState::Reboot));
            match self.conn.read_until("soft reboot\r\n".as_bytes(), self.timeout_ms) {
                Err(e) => {
                    assert(session::entering(pre, soft_reset, self@, EnterState::Done(Err(e@))));
                    return Err(e);
                },
                Ok(_) => {},
            }
            assert(session::entering(pre, soft_reset, self@, EnterState::BannerAgain));
            match self.conn.read_until(
                "raw REPL; CTRL-B to exit\r\n>".as_bytes(),
                self.timeout_ms,
            ) {
                Err(e) => {
                    assert(session::entering(pre, soft_reset, self@, EnterState::Done(Err(e@))));
                    return Err(e);
                },
                Ok(_) => {},
            }
        }
        assert(session::entering(pre, soft_reset, self@, EnterState::Done(Ok(()))));
        self.in_raw_repl = true;
        Ok(())
    }

    /// Exit raw REPL mode, returning to normal REPL.
    pub fn exit_raw_repl(&mut self) -> (r: Result<(), MpError>)
        ensures
            session::exits(old(self)@, final(self)@, error::outcome(r)),
    {
        match self.write_byte(0x0d) {
            Err(e) => {
                return Err(e);
            },
            Ok(_) => {},
        }
        match self.write_byte(CTRL_B) {
            Err(e) => {
                return Err(e);
            },
            Ok(_) => {},
        }
        self.in_raw_repl = false;
        Ok(())
    }

    /// Send CTRL-C to interrupt the running program.
    /// Does not enter/exit raw REPL.
    pub fn send_ctrl_c(&mut self) -> (r: Result<(), MpError>)
        ensures
            final(self)@ == old(self)@.then_write(seq![3u8, 3u8], error::outcome(r)),
    {
        let mut data: Vec<u8> = Vec::new();
        data.push(CTRL_C);
        data.push(CTRL_C);
        assert(data@ =~= seq![CTRL_C, CTRL_C]);
        self.conn.write_all(data.as_slice())
    }

    /// Send CTRL-D (soft reboot / EOT).
    /// Must be called while in raw REPL.
    pub fn send_ctrl_d(&mut self) -> (r: Result<(), MpError>)
        ensures
            final(self)@ == old(self)@.then_write(seq![4u8], error::outcome(r)),
    {
        self.write_byte(CTRL_D)
    }

    /// Submit code by raw paste, with flow control. Must be called while in raw REPL.
    ///
    /// The device tells the size of its window and grants another one whenever it
    /// has room, so its input buffer never overflows.
    pub fn try_submit_raw_paste(&mut self, code: &[u8]) -> (r: Result<(), MpError>)
        ensures
            session::raw_pastes(old(self)@, code@, final(self)@, error::outcome(r)),
    {
        let ghost pre = self@;
        proof {
            connection::lemma_leads_nowhere(
                RawPasteState::Ask,
                session::raw_paste_step(code@, pre.timeout_ms),
                pre.record,
            );
        }
        let mut request: Vec<u8> = Vec::new();
        request.push(CTRL_E);
        request.push(0x41);
        request.push(CTRL_A);
        assert(request@ =~= session::raw_paste_request());
        match self.conn.write_all(request.as_slice()) {
            Err(e) => {
                assert(session::raw_pasting(pre, code@, self@, RawPasteState::Done(Err(e@))));
                return Err(e);
            },
            Ok(_) => {},
        }
        assert(session::raw_pasting(pre, code@, self@, RawPasteState::Answer));
        let answer: Vec<u8> = match self.conn.read_exact(2, 3000) {
            Err(e) => {
                assert(session::raw_pasting(pre, code@, self@, RawPasteState::Done(Err(e@))));
                return Err(e);
            },
            Ok(data) => data,
        };
        assert(answer@ =~= seq![answer@[0], answer@[1]]);
        if answer[0] == 0x52 && answer[1] == 0x00 {
            assert(session::raw_pasting(
                pre,
                code@,
                self@,
                RawPasteState::Done(session::protocol_failure("device rejected raw-paste"@)),
            ));
            return Err(protocol_error("device rejected raw-paste"));
        }
        if !(answer[0] == 0x52 && answer[1] == 0x01) {
            assert(answer@ != session::raw_paste_supported());
            assert(session::raw_pasting(pre, code@, self@, RawPasteState::Resync));
            let mut prompt: Vec<u8> = Vec::new();
            prompt.push(0x3e);
            assert(prompt@ =~= seq![0x3eu8]);
            let _ = self.conn.read_until(prompt.as_slice(), 3000);
            assert(session::raw_pasting(
                pre,
                code@,
                self@,
                RawPasteState::Done(
                    session::protocol_failure("device does not support raw-paste"@),
                ),
            ));
            return Err(protocol_error("device does not support raw-paste"));
        }
        assert(session::raw_pasting(pre, code@, self@, RawPasteState::WindowSize));

        let size: Vec<u8> = match self.conn.read_exact(2, self.timeout_ms) {
            Err(e) => {
                assert(session::raw_pasting(pre, code@, self@, RawPasteState::Done(Err(e@))));
                return Err(e);
            },
            Ok(data) => data,
        };
        let window: usize = size[0] as usize + 256 * (size[1] as usize);
        assert(session::raw_pasting(
            pre,
            code@,
            self@,
            RawPasteState::Peek { window: window as nat },
        ));

        // Some devices send one more byte after the window size.
        if !self.conn.incoming_is_empty() {
            assert(session::raw_pasting(
                pre,
                code@,
                self@,
                RawPasteState::Extra { window: window as nat },
            ));
            let _ = self.conn.read_exact(1, 100);
        }
        let mut sent: usize = 0;
        let mut left: usize = window;
        let mut grants: u64 = 0;
        let ghost mut flow = session::fresh_flow(window as nat);
        while sent < code.len()
            invariant
                pre == old(self)@,
                sent <= code@.len(),
                window <= 65535,
                sent < code@.len() ==> left <= window,
                flow == (Flow {
                    window: window as nat,
                    sent: sent as nat,
                    left: left as nat,
                    grants: grants as nat,
                }),
                session::raw_pasting(
                    pre,
                    code@,
                    self@,
                    session::flowing(code@.len(), flow),
                ),
            decreases code@.len() - sent, u64::MAX - grants,
        {
            let mut control: bool = true;
            if left > 0 {
                control = !self.conn.incoming_is_empty();
            }
            if control {
                assert(session::raw_pasting(pre, code@, self@, RawPasteState::Control(flow)));
                match self.conn.read_exact(1, self.timeout_ms) {
                    Err(e) => {
                        assert(session::raw_pasting(
                            pre,
                            code@,
                            self@,
                            RawPasteState::Done(Err(e@)),
                        ));
                        return Err(e);
                    },
                    Ok(data) => {
                        let b: u8 = data[0];
                        assert(session::raw_pasting(
                            pre,
                            code@,
                            self@,
                            session::after_control(flow, b),
                        ));
                        if b == CTRL_A {
                            if grants == u64::MAX {
                                return Err(protocol_error("raw-paste window never opened"));
                            }
                            left = left + window;
                            grants = grants + 1;
                            proof {
                                flow = Flow { left: left as nat, grants: grants as nat, ..flow };
                            }
                        } else if b == CTRL_D {
                            match self.write_byte(CTRL_D) {
                                Err(e) => {
                                    assert(session::raw_pasting(
                                        pre,
                                        code@,
                                        self@,
                                        RawPasteState::Done(Err(e@)),
                                    ));
                                    return Err(e);
                                },
                                Ok(_) => {},
                            }
                            assert(session::raw_pasting(
                                pre,
                                code@,
                                self@,
                                RawPasteState::Done(
                                    session::protocol_failure(
                                        "device aborted raw-paste transfer"@,
                                    ),
                                ),
                            ));
                            return Err(protocol_error("device aborted raw-paste transfer"));
                        } else {
                            return Err(
                                protocol_error_with_byte("unexpected byte during raw-paste: 0x", b),
                            );
                        }
                    },
                }
            }
            assert(session::raw_pasting(pre, code@, self@, RawPasteState::Send(flow)));
            let mut end: usize = code.len();
            if left < code.len() - sent {
                end = sent + left;
            }
            assert(end == session::chunk_end(code@.len(), sent as nat, left as nat));
            match self.conn.write_all(slice_subrange(code, sent, end)) {
                Err(e) => {
                    assert(session::raw_pasting(pre, code@, self@, RawPasteState::Done(Err(e@))));
                    return Err(e);
                },
                Ok(_) => {},
            }
            left = left - (end - sent);
            sent = end;
            proof {
                flow = Flow { left: left as nat, sent: sent as nat, ..flow };
            }
        }
        assert(session::raw_pasting(pre, code@, self@, RawPasteState::Finish));
        match self.write_byte(CTRL_D) {
            Err(e) => {
                assert(session::raw_pasting(pre, code@, self@, RawPasteState::Done(Err(e@))));
                return Err(e);
            },
            Ok(_) => {},
        }
        assert(session::raw_pasting(pre, code@, self@, RawPasteState::Ack));
        match self.conn.read_exact(1, self.timeout_ms) {
            Err(e) => {
                assert(session::raw_pasting(pre, code@, self@, RawPasteState::Done(Err(e@))));
                Err(e)
            },
            Ok(data) => {
                let b: u8 = data[0];
                if b == CTRL_D {
                    assert(session::raw_pasting(pre, code@, self@, RawPasteState::Done(Ok(()))));
                    Ok(())
                } else {
                    assert(session::raw_pasting(
                        pre,
                        code@,
                        self@,
                        RawPasteState::Done(
                            session::protocol_failure(
                                "expected CTRL-D ack after raw-paste, got 0x"@ + hex::hex_byte(b),
                            ),
                        ),
                    ));
                    Err(
                        protocol_error_with_byte(
                            "expected CTRL-D ack after raw-paste, got 0x",
                            b,
                        ),
                    )
                }
            },
        }
    }

    /// Raw mode: 256-byte chunks with 10ms delays (slow fallback).
    pub fn submit_raw(&mut self, code: &[u8]) -> (r: Result<(), MpError>)
        ensures
            session::sends_raw(old(self)@, code@, final(self)@, error::outcome(r)),
    {
        let ghost pre = self@;
        proof {
            connection::lemma_leads_nowhere(
                session::raw_sending(code@.len(), 0),
                session::raw_step(code@, pre.timeout_ms),
                pre.record,
            );
        }
        let mut from: usize = 0;
        while from < code.len()
            invariant
                pre == old(self)@,
                from <= code@.len(),
                session::sending_raw(
                    pre,
                    code@,
                    self@,
                    session::raw_sending(code@.len(), from as nat),
                ),
            decreases code@.len() - from,
        {
            let mut end: usize = code.len();
            if CHUNK_SIZE < code.len() - from {
                end = from + CHUNK_SIZE;
            }
            assert(end == session::chunk_end(code@.len(), from as nat, CHUNK_SIZE as nat));
            match self.conn.write_all(slice_subrange(code, from, end)) {
                Err(e) => {
                    assert(session::sending_raw(pre, code@, self@, RawState::Done(Err(e@))));
                    return Err(e);
                },
                Ok(_) => {},
            }
            assert(session::sending_raw(
                pre,
                code@,
                self@,
                RawState::ChunkPause { next: end as nat },
            ));
            self.conn.pause(RAW_DELAY_MS);
            from = end;
        }
        match self.write_byte(CTRL_D) {
            Err(e) => {
                assert(session::sending_raw(pre, code@, self@, RawState::Done(Err(e@))));
                return Err(e);
            },
            Ok(_) => {},
        }
        assert(session::sending_raw(pre, code@, self@, RawState::Reply));
        match self.conn.read_exact(2, self.timeout_ms) {
            Err(e) => {
                assert(session::sending_raw(pre, code@, self@, RawState::Done(Err(e@))));
                Err(e)
            },
            Ok(data) => {
                assert(data@ =~= seq![data@[0], data@[1]]);
                if data[0] == 0x4f && data[1] == 0x4b {
                    assert(session::sending_raw(pre, code@, self@, RawState::Done(Ok(()))));
                    Ok(())
                } else {
                    assert(data@ != seq![0x4fu8, 0x4bu8]);
                    let shown: String = debug_string(lossy_string(data.as_slice()).as_str());
                    let mut msg: String = "expected OK after raw submit, got ".to_owned();
                    msg.append(shown.as_str());
                    assert(session::sending_raw(
                        pre,
                        code@,
                        self@,
                        RawState::Done(session::protocol_failure(msg@)),
                    ));
                    Err(MpError::Protocol(msg))
                }
            },
        }
    }

    /// Paste mode: CTRL-E based sending.
    pub fn submit_paste(&mut self, code: &[u8]) -> (r: Result<(), MpError>)
        ensures
            session::pastes(old(self)@, code@, final(self)@, error::outcome(r)),
    {
        let ghost pre = self@;
        proof {
            connection::lemma_leads_nowhere(
                PasteState::Open,
                session::paste_step(code@, pre.timeout_ms),
                pre.record,
            );
        }
        match self.write_byte(CTRL_E) {
            Err(e) => {
                assert(session::pasting(pre, code@, self@, PasteState::Done(Err(e@))));
                return Err(e);
            },
            Ok(_) => {},
        }
        assert(session::pasting(pre, code@, self@, PasteState::Prompt));
        match self.conn.read_until("=== ".as_bytes(), self.timeout_ms) {
            Err(e) => {
                assert(session::pasting(pre, code@, self@, PasteState::Done(Err(e@))));
                return Err(e);
            },
            Ok(_) => {},
        }
        let mut from: usize = 0;
        while from < code.len()
            invariant
                pre == old(self)@,
                from <= code@.len(),
                session::pasting(
                    pre,
                    code@,
                    self@,
                    session::paste_sending(code@.len(), from as nat),
                ),
            decreases code@.len() - from,
        {
            let mut end: usize = code.len();
            if CHUNK_SIZE < code.len() - from {
                end = from + CHUNK_SIZE;
            }
            assert(end == session::chunk_end(code@.len(), from as nat, CHUNK_SIZE as nat));
            match self.conn.write_all(slice_subrange(code, from, end)) {
                Err(e) => {
                    assert(session::pasting(pre, code@, self@, PasteState::Done(Err(e@))));
                    return Err(e);
                },
                Ok(_) => {},
            }
            assert(session::pasting(
                pre,
                code@,
                self@,
                PasteState::ChunkPause { next: end as nat },
            ));
            self.conn.pause(PASTE_DELAY_MS);
            from = end;
        }
        match self.write_byte(CTRL_D) {
            Err(e) => {
                assert(session::pasting(pre, code@, self@, PasteState::Done(Err(e@))));
                return Err(e);
            },
            Ok(_) => {},
        }
        assert(session::pasting(pre, code@, self@, PasteState::Echo));
        let mut line_end: Vec<u8> = Vec::new();
        line_end.push(0x0d);
        line_end.push(0x0a);
        assert(line_end@ =~= seq![0x0du8, 0x0au8]);
        match self.conn.read_until(line_end.as_slice(), self.timeout_ms) {
            Err(e) => {
                assert(session::pasting(pre, code@, self@, PasteState::Done(Err(e@))));
                Err(e)
            },
            Ok(_) => {
                assert(session::pasting(pre, code@, self@, PasteState::Done(Ok(()))));
                Ok(())
            },
        }
    }

    /// Send code bytes. Must be called while already in raw REPL.
    ///
    /// Tries raw-paste first (if enabled), falls back to raw mode.
    pub fn submit_code(&mut self, code: &[u8]) -> (r: Result<(), MpError>)
        ensures
            session::submits(old(self)@, code@, final(self)@, error::outcome(r)),
    {
        match self.submit_mode {
            SubmitMode::Paste => self.submit_paste(code),
            SubmitMode::Raw => self.submit_raw(code),
            SubmitMode::RawPaste => {
                if !self.use_raw_paste {
                    return self.submit_raw(code);
                }
                match self.try_submit_raw_paste(code) {
                    Ok(_) => Ok(()),
                    Err(_) => {
                        // What the device has left in its output is unknown: leave
                        // the raw REPL and enter it again for a clean start.
                        self.use_raw_paste = false;
                        self.submit_mode = SubmitMode::Raw;
                        match self.exit_raw_repl() {
                            Err(e) => {
                                return Err(e);
                            },
                            Ok(_) => {},
                        }
                        match self.enter_raw_repl(false) {
                            Err(e) => {
                                return Err(e);
                            },
                            Ok(_) => {},
                        }
                        self.submit_raw(code)
                    },
                }
            },
        }
    }

    /// Read execution output until two CTRL-D markers (stdout / stderr split).
    ///
    /// First CTRL-D ends stdout, second CTRL-D ends stderr.
    pub fn follow(&mut self, timeout_ms: u64) -> (r: Result<ExecResult, MpError>)
        ensures
            session::follows(old(self)@, timeout_ms as nat, final(self)@, error::outcome(r)),
    {
        let ghost pre = self@;
        proof {
            connection::lemma_leads_nowhere(
                FollowState::Start,
                session::follow_step(timeout_ms as nat),
                pre.record,
            );
        }
        let started: u64 = self.conn.clock();
        let deadline: u64 = if timeout_ms <= u64::MAX - started {
            started + timeout_ms
        } else {
            u64::MAX
        };
        let mut stdout: Vec<u8> = Vec::new();
        let mut stderr: Vec<u8> = Vec::new();
        let mut seen: bool = false;
        assert(stdout@ =~= Seq::empty() && stderr@ =~= Seq::empty());
        loop
            invariant
                pre == old(self)@,
                session::following(
                    pre,
                    timeout_ms as nat,
                    self@,
                    FollowState::Check(
                        Collected {
                            deadline: deadline as nat,
                            seen,
                            stdout: stdout@,
                            stderr: stderr@,
                        },
                    ),
                ),
            decreases
                    remaining(deadline as nat, self.conn.now()),
                    (usize::MAX - stdout.len()) + (usize::MAX - stderr.len()) + (if seen {
                        0int
                    } else {
                        1int
                    }),
        {
            let ghost c = Collected {
                deadline: deadline as nat,
                seen,
                stdout: stdout@,
                stderr: stderr@,
            };
            if self.conn.clock() >= deadline {
                let e: MpError = MpError::Timeout(
                    "timeout waiting for execution output".to_owned(),
                );
                assert(session::following(
                    pre,
                    timeout_ms as nat,
                    self@,
                    FollowState::Done(Err(e@)),
                ));
                return Err(e);
            }
            assert(session::following(pre, timeout_ms as nat, self@, FollowState::Read(c)));
            match self.conn.read_exact(1, 100) {
                Ok(data) => {
                    let b: u8 = data[0];
                    assert(session::following(
                        pre,
                        timeout_ms as nat,
                        self@,
                        session::after_byte(c, b),
                    ));
                    if b == CTRL_D {
                        if seen {
                            return Ok(ExecResult { stdout, stderr });
                        }
                        seen = true;
                    } else if seen {
                        stderr.push(b);
                    } else {
                        stdout.push(b);
                    }
                },
                Err(MpError::Timeout(msg)) => {
                    assert(session::following(pre, timeout_ms as nat, self@, FollowState::Check(c)));
                },
                Err(e) => {
                    assert(session::following(
                        pre,
                        timeout_ms as nat,
                        self@,
                        FollowState::Done(Err(e@)),
                    ));
                    return Err(e);
                },
            }
        }
    }

    /// Execute code and collect output. Enters/exits raw REPL automatically.
    pub fn exec_raw(&mut self, code: &[u8]) -> (r: Result<ExecResult, MpError>)
        ensures
            session::executes(old(self)@, code@, final(self)@, error::outcome(r)),
    {
        match self.enter_raw_repl(false) {
            Err(e) => {
                return Err(e);
            },
            Ok(_) => {},
        }
        let ghost entered = self@;
        match self.submit_code(code) {
            Err(e) => {
                assert(session::executes_entered(entered, code@, self@, Err(e@)));
                return Err(e);
            },
            Ok(_) => {},
        }
        let ghost submitted = self@;
        match self.follow(FOLLOW_TIMEOUT_MS) {
            Err(e) => {
                assert(session::executes_submitted(submitted, self@, Err(e@)));
                assert(session::executes_entered(entered, code@, self@, Err(e@)));
                Err(e)
            },
            Ok(out) => match self.exit_raw_repl() {
                Err(e) => {
                    assert(session::executes_submitted(submitted, self@, Err(e@)));
                    assert(session::executes_entered(entered, code@, self@, Err(e@)));
                    Err(e)
                },
                Ok(_) => {
                    assert(session::executes_submitted(submitted, self@, Ok(out@)));
                    assert(session::executes_entered(entered, code@, self@, Ok(out@)));
                    Ok(out)
                },
            },
        }
    }

    fn exec_batch_step(&mut self, code: &[u8]) -> (r: Result<ExecResult, MpError>)
        ensures
            session::batch_step(old(self)@, code@, final(self)@, error::outcome(r)),
    {
        match self.try_submit_raw_paste(code) {
            Err(e) => {
                return Err(e);
            },
            Ok(_) => {},
        }
        let ghost submitted = self@;
        match self.follow(FOLLOW_TIMEOUT_MS) {
            Err(e) => {
                assert(session::batch_step_submitted(submitted, self@, Err(e@)));
                Err(e)
            },
            Ok(out) => {
                let _ = self.conn.read_exact(1, 200);
                assert(session::batch_step_submitted(submitted, self@, Ok(out@)));
                Ok(out)
            },
        }
    }

    /// Execute multiple commands in a single raw REPL session.
    /// Much faster than calling `exec_raw` repeatedly, since we avoid
    /// the overhead of entering/exiting raw mode for each command.
    ///
    /// Uses raw-paste exclusively for flow control. If raw-paste is not
    /// supported, returns an error instead of falling back (which would
    /// corrupt the batch session by re-entering raw REPL).
    pub fn exec_raw_batch(&mut self, codes: &[&[u8]]) -> (r: Result<Vec<ExecResult>, MpError>)
        ensures
            session::executes_batch(
                old(self)@,
                code_views(codes@),
                final(self)@,
                batch_outcome(r),
            ),
    {
        match self.enter_raw_repl(false) {
            Err(e) => {
                return Err(e);
            },
            Ok(_) => {},
        }
        let ghost entered = self@;
        let ghost all = code_views(codes@);
        let mut results: Vec<ExecResult> = Vec::new();
        let mut i: usize = 0;
        assert(outputs(results@) =~= Seq::empty());
        assert(all.take(0) =~= Seq::empty());
        while i < codes.len()
            invariant
                i <= codes@.len(),
                all == code_views(codes@),
                session::enters(old(self)@, false, entered, Ok(())),
                session::batch_steps(
                    entered,
                    all.take(i as int),
                    self@,
                    Ok(outputs(results@)),
                ),
            decreases codes@.len() - i,
        {
            let ghost before = self@;
            let ghost done = outputs(results@);
            assert(all.take(i + 1).drop_last() =~= all.take(i as int));
            assert(all.take(i + 1).last() == codes@[i as int]@);
            match self.exec_batch_step(codes[i]) {
                Err(e) => {
                    proof {
                        assert(session::batch_goes_on(
                            before,
                            Ok(done),
                            all.take(i + 1).last(),
                            self@,
                            Err(e@),
                        ));
                        assert(session::batch_steps(
                            entered,
                            all.take(i + 1),
                            self@,
                            Err(e@),
                        ));
                        session::lemma_batch_failed(entered, all, i + 1, self@, e@);
                        assert(session::executes_batch_entered(entered, all, self@, Err(e@)));
                    }
                    return Err(e);
                },
                Ok(out) => {
                    results.push(out);
                    assert(outputs(results@) =~= done.push(out@));
                    assert(session::batch_goes_on(
                        before,
                        Ok(done),
                        all.take(i + 1).last(),
                        self@,
                        Ok(outputs(results@)),
                    ));
                },
            }
            i = i + 1;
        }
        assert(all.take(codes@.len() as int) =~= all);
        let ghost ran = self@;
        match self.exit_raw_repl() {
            Err(e) => {
                assert(session::executes_batch_entered(entered, all, self@, Err(e@)));
                Err(e)
            },
            Ok(_) => {
                assert(session::executes_batch_entered(
                    entered,
                    all,
                    self@,
                    Ok(outputs(results@)),
                ));
                Ok(results)
            },
        }
    }
}

/// The bytes of each code.
pub open spec fn code_views(codes: Seq<&[u8]>) -> Seq<Seq<u8>> {
    Seq::new(codes.len(), |i: int| codes[i]@)
}

/// The value of each output.
pub open spec fn outputs(results: Seq<ExecResult>) -> Seq<Output> {
    Seq::new(results.len(), |i: int| results[i]@)
}

/// The value of the result of a batch.
pub open spec fn batch_outcome(r: Result<Vec<ExecResult>, MpError>) -> Result<
    Seq<Output>,
    ErrorView,
> {
    match r {
        Ok(v) => Ok(outputs(v@)),
        Err(e) => Err(e@),
    }
}

/// How far a clock is from a deadline.
spec fn remaining(deadline: nat, now: nat) -> int {
    if connection::clock_value(now) < deadline {
        deadline - connection::clock_value(now)
    } else {
        0
    }
}

fn protocol_error(msg: &str) -> (r: MpError)
    ensures
        r@ == ErrorView::Protocol(msg@),
{
    MpError::Protocol(msg.to_owned())
}

fn protocol_error_with_byte(msg: &str, b: u8) -> (r: MpError)
    ensures
        r@ == ErrorView::Protocol(msg@ + hex::hex_byte(b)),
{
    let mut text: String = msg.to_owned();
    push_hex_byte(&mut text, b);
    MpError::Protocol(text)
}

} // verus!
