//! High-level operations on a device.

use vstd::prelude::*;

use crate::connection::Connection;
use crate::error;
use crate::error::ErrorView;
use crate::error::MpError;
use crate::protocol;
use crate::protocol::ExecResult;
use crate::protocol::ReplSession;
use crate::protocol::SubmitMode;
use crate::replies;
use crate::replies::parse_download;
use crate::replies::parse_info;
use crate::replies::parse_listing;
use crate::replies::parse_stat;
use crate::replies::DeviceInfo;
use crate::replies::FileStat;
use crate::replies::InfoView;
use crate::replies::StatView;
use crate::scripts;
use crate::scripts::build_create_script;
use crate::scripts::build_eval_script;
use crate::scripts::build_info_script;
use crate::scripts::build_list_script;
use crate::scripts::build_mkdir_script;
use crate::scripts::build_read_script;
use crate::scripts::build_remove_script;
use crate::scripts::build_run_script;
use crate::scripts::build_stat_script;
use crate::scripts::build_upload;
use crate::session;
use crate::session::Output;
use crate::session::SessionView;
use crate::text;
use crate::text::contains_text;
use crate::text::trim_end_crlf;
use crate::unicode;
use crate::unicode::lossy_string;

verus! {

// ---------------------------------------------------------------------------
// What the operations do
// ---------------------------------------------------------------------------

/// The error for code that wrote error output.
pub open spec fn failure(out: Output) -> ErrorView {
    ErrorView::Execution {
        stdout: unicode::text_of(out.stdout),
        stderr: unicode::text_of(out.stderr),
    }
}

/// What code printed, where it ran without error output.
pub open spec fn printed(out: Result<Output, ErrorView>) -> Result<Seq<char>, ErrorView> {
    match out {
        Err(e) => Err(e),
        Ok(o) => if o.stderr.len() > 0 {
            Err(failure(o))
        } else {
            Ok(unicode::text_of(o.stdout))
        },
    }
}

/// A result of which only success matters.
pub open spec fn done<T>(r: Result<T, ErrorView>) -> Result<(), ErrorView> {
    match r {
        Ok(_) => Ok(()),
        Err(e) => Err(e),
    }
}

/// A script was executed.
pub open spec fn runs(
    pre: SessionView,
    script: Seq<char>,
    post: SessionView,
    out: Result<Output, ErrorView>,
) -> bool {
    session::executes(pre, vstd::utf8::encode_utf8(script), post, out)
}

/// A script was executed and printed `r`.
pub open spec fn prints(
    pre: SessionView,
    script: Seq<char>,
    post: SessionView,
    r: Result<Seq<char>, ErrorView>,
) -> bool {
    exists|out: Result<Output, ErrorView>| #[trigger]
        runs(pre, script, post, out) && r == printed(out)
}

/// The value of an expression in what the device printed for it.
pub open spec fn value_of(p: Result<Seq<char>, ErrorView>) -> Result<Seq<char>, ErrorView> {
    match p {
        Ok(t) => Ok(text::trimmed_end_crlf(t)),
        Err(e) => Err(e),
    }
}

/// An expression was evaluated.
pub open spec fn evaluates(
    pre: SessionView,
    expr: Seq<char>,
    post: SessionView,
    r: Result<Seq<char>, ErrorView>,
) -> bool {
    exists|p: Result<Seq<char>, ErrorView>| #[trigger]
        prints(pre, scripts::eval_script(expr), post, p) && r == value_of(p)
}

/// The first failure in the outputs of a batch.
pub open spec fn first_failure(outs: Seq<Output>) -> Result<(), ErrorView>
    decreases outs.len(),
{
    if outs.len() == 0 {
        Ok(())
    } else if outs[0].stderr.len() > 0 {
        Err(failure(outs[0]))
    } else {
        first_failure(outs.skip(1))
    }
}

/// Whether a batch ran without error output.
pub open spec fn batch_done(r: Result<Seq<Output>, ErrorView>) -> Result<(), ErrorView> {
    match r {
        Ok(outs) => first_failure(outs),
        Err(e) => Err(e),
    }
}

/// The bytes of scripts.
pub open spec fn encoded(texts: Seq<Seq<char>>) -> Seq<Seq<u8>> {
    Seq::new(texts.len(), |i: int| vstd::utf8::encode_utf8(texts[i]))
}

/// Bytes were written to a file: nothing more than its creation where there are
/// none, else one batch of scripts.
pub open spec fn writes(
    pre: SessionView,
    path: Seq<char>,
    data: Seq<u8>,
    post: SessionView,
    r: Result<(), ErrorView>,
) -> bool {
    if data.len() == 0 {
        exists|p: Result<Seq<char>, ErrorView>| #[trigger]
            prints(pre, scripts::create_script(path), post, p) && r == done(p)
    } else {
        exists|outs: Result<Seq<Output>, ErrorView>| #[trigger]
            session::executes_batch(pre, encoded(scripts::upload(path, data)), post, outs) && r
                == batch_done(outs)
    }
}

/// The bytes of a file in what the device printed of it.
pub open spec fn contents(p: Result<Seq<char>, ErrorView>) -> Result<Seq<u8>, ErrorView> {
    match p {
        Ok(t) => replies::download(text::lines(t)),
        Err(e) => Err(e),
    }
}

/// A file was read.
pub open spec fn reads(
    pre: SessionView,
    path: Seq<char>,
    post: SessionView,
    r: Result<Seq<u8>, ErrorView>,
) -> bool {
    exists|p: Result<Seq<char>, ErrorView>| #[trigger]
        prints(pre, scripts::read_script(path), post, p) && r == contents(p)
}

/// The text of bytes that were read.
pub open spec fn as_text(r: Result<Seq<u8>, ErrorView>) -> Result<Seq<char>, ErrorView> {
    match r {
        Ok(bytes) => Ok(unicode::text_of(bytes)),
        Err(e) => Err(e),
    }
}

/// The names in what the device printed of a directory.
pub open spec fn names(p: Result<Seq<char>, ErrorView>) -> Result<Seq<Seq<char>>, ErrorView> {
    match p {
        Ok(t) => replies::listing(text::lines(t)),
        Err(e) => Err(e),
    }
}

/// A directory was listed.
pub open spec fn lists(
    pre: SessionView,
    path: Seq<char>,
    post: SessionView,
    r: Result<Seq<Seq<char>>, ErrorView>,
) -> bool {
    exists|p: Result<Seq<char>, ErrorView>| #[trigger]
        prints(pre, scripts::list_script(path), post, p) && r == names(p)
}

/// Whether error output says that a file does not exist.
pub open spec fn says_not_found(stderr: Seq<char>) -> bool {
    text::has_text(stderr, "ENOENT"@) || text::has_text(stderr, "Errno 2"@)
}

/// What becomes of the removal of a file.
pub open spec fn removal(path: Seq<char>, out: Result<Output, ErrorView>) -> Result<
    (),
    ErrorView,
> {
    match out {
        Err(e) => Err(e),
        Ok(o) => if o.stderr.len() == 0 {
            Ok(())
        } else if says_not_found(unicode::text_of(o.stderr)) {
            Err(ErrorView::Filesystem("not found: "@ + path))
        } else {
            Err(failure(o))
        },
    }
}

/// A file was removed.
pub open spec fn removes(
    pre: SessionView,
    path: Seq<char>,
    post: SessionView,
    r: Result<(), ErrorView>,
) -> bool {
    exists|out: Result<Output, ErrorView>| #[trigger]
        runs(pre, scripts::remove_script(path), post, out) && r == removal(path, out)
}

/// A file was removed, or could not be.
pub open spec fn removes_or_not(pre: SessionView, path: Seq<char>, post: SessionView) -> bool {
    exists|r: Result<(), ErrorView>| #[trigger] removes(pre, path, post, r)
}

/// A file was run, and then removed if it ran.
pub open spec fn runs_then_removes(
    pre: SessionView,
    path: Seq<char>,
    post: SessionView,
    out: Result<Output, ErrorView>,
) -> bool {
    exists|m: SessionView| #[trigger]
        runs(pre, scripts::run_script(path), m, out) && match out {
            Ok(_) => removes_or_not(m, path, post),
            Err(_) => post == m,
        }
}

/// A script was uploaded, run and removed. The result is that of the run, or the error
/// that kept it from running.
pub open spec fn runs_upload(
    pre: SessionView,
    path: Seq<char>,
    data: Seq<u8>,
    post: SessionView,
    out: Result<Output, ErrorView>,
) -> bool {
    exists|m: SessionView, written: Result<(), ErrorView>| #[trigger]
        writes(pre, path, data, m, written) && match written {
            Ok(_) => runs_then_removes(m, path, post, out),
            Err(e) => post == m && out == Err::<Output, ErrorView>(e),
        }
}

/// A directory was created.
pub open spec fn makes_dir(
    pre: SessionView,
    path: Seq<char>,
    post: SessionView,
    r: Result<(), ErrorView>,
) -> bool {
    exists|p: Result<Seq<char>, ErrorView>| #[trigger]
        prints(pre, scripts::mkdir_script(path), post, p) && r == done(p)
}

/// What the device printed of itself.
pub open spec fn info_in(p: Result<Seq<char>, ErrorView>) -> Result<InfoView, ErrorView> {
    match p {
        Ok(t) => Ok(replies::info_of(text::lines(t))),
        Err(e) => Err(e),
    }
}

/// The device was asked about itself.
pub open spec fn informs(
    pre: SessionView,
    post: SessionView,
    r: Result<InfoView, ErrorView>,
) -> bool {
    exists|p: Result<Seq<char>, ErrorView>| #[trigger]
        prints(pre, scripts::info_script(), post, p) && r == info_in(p)
}

/// The status in what the device printed of a file.
pub open spec fn stat_in(path: Seq<char>, p: Result<Seq<char>, ErrorView>) -> Result<
    StatView,
    ErrorView,
> {
    match p {
        Ok(t) => Ok(replies::stat_of(path, text::lines(t))),
        Err(e) => Err(e),
    }
}

/// The status of a file was asked for.
pub open spec fn stats(
    pre: SessionView,
    path: Seq<char>,
    post: SessionView,
    r: Result<StatView, ErrorView>,
) -> bool {
    exists|p: Result<Seq<char>, ErrorView>| #[trigger]
        prints(pre, scripts::stat_script(path), post, p) && r == stat_in(path, p)
}

/// The device was brought back to its friendly prompt, whatever it was doing.
pub open spec fn opens_repl(
    pre: SessionView,
    post: SessionView,
    r: Result<(), ErrorView>,
) -> bool {
    exists|a: SessionView, ra: Result<(), ErrorView>| #[trigger]
        session::enters(pre, false, a, ra) && match ra {
            Err(e) => post == a && r == ra,
            Ok(_) => session::exits(a, post, r),
        }
}

/// The device was reset from the raw REPL.
pub open spec fn resets(pre: SessionView, post: SessionView, r: Result<(), ErrorView>) -> bool {
    exists|a: SessionView, ra: Result<(), ErrorView>| #[trigger]
        session::enters(pre, false, a, ra) && match ra {
            Err(e) => post == a && r == ra,
            Ok(_) => resets_entered(a, post, r),
        }
}

/// What `resets` says from the raw REPL on.
pub open spec fn resets_entered(
    pre: SessionView,
    post: SessionView,
    r: Result<(), ErrorView>,
) -> bool {
    exists|sent: Result<(), ErrorView>|
        {
            let b = #[trigger] pre.then_write(seq![protocol::CTRL_D], sent);
            match sent {
                Err(e) => post == b && r == sent,
                Ok(_) => session::exits(b, post, r),
            }
        }
}

// ---------------------------------------------------------------------------
// The device
// ---------------------------------------------------------------------------

/// High-level device operations built on top of the REPL session.
pub struct Device<C: Connection> {
    session: ReplSession<C>,
}

impl<C: Connection> View for Device<C> {
    type V = SessionView;

    closed spec fn view(&self) -> SessionView {
        self.session@
    }
}

fn failed(out: &ExecResult) -> (e: MpError)
    ensures
        e@ == failure(out@),
{
    MpError::Execution { stdout: out.stdout_str(), stderr: out.stderr_str() }
}

impl<C: Connection> Device<C> {
    /// The connection to the device.
    pub closed spec fn connection(&self) -> C {
        self.session.connection()
    }

    /// A device at the other end of a connection.
    pub fn new_with_timeout(conn: C, timeout_ms: u64) -> (r: Self)
        ensures
            r.connection() == conn,
            r@ == (SessionView {
                timeout_ms: timeout_ms as nat,
                use_raw_paste: true,
                submit_mode: SubmitMode::RawPaste,
                in_raw_repl: false,
                record: conn.record(),
            }),
    {
        Device { session: ReplSession::with_timeout(conn, timeout_ms) }
    }

    /// The connection to the device, for direct use.
    pub fn conn(&mut self) -> (r: &mut C)
        ensures
            *r == old(self).connection(),
            (*r).record() == old(self)@.record,
            final(self).connection() == *final(r),
            final(self)@ == old(self)@.with_record(final(r).record()),
    {
        self.session.conn()
    }

    /// Execute Python code on the device and return stdout/stderr.
    pub fn exec(&mut self, code: &str) -> (r: Result<ExecResult, MpError>)
        ensures
            runs(old(self)@, code@, final(self)@, error::outcome(r)),
    {
        self.session.exec_raw(code.as_bytes())
    }

    /// Executes a script that is to print something and to write no error output.
    fn exec_printing(&mut self, script: &str) -> (r: Result<String, MpError>)
        ensures
            prints(old(self)@, script@, final(self)@, error::outcome(r)),
    {
        match self.exec(script) {
            Err(e) => {
                assert(runs(old(self)@, script@, self@, Err(e@)));
                Err(e)
            },
            Ok(out) => {
                assert(runs(old(self)@, script@, self@, Ok(out@)));
                if out.is_error() {
                    Err(failed(&out))
                } else {
                    Ok(out.stdout_str())
                }
            },
        }
    }

    /// Evaluate a Python expression and return the repr of the result.
    pub fn eval(&mut self, expr: &str) -> (r: Result<String, MpError>)
        ensures
            evaluates(old(self)@, expr@, final(self)@, error::outcome(r)),
    {
        let p: Result<String, MpError> = self.exec_printing(build_eval_script(expr).as_str());
        let ghost pv = error::outcome(p);
        assert(prints(old(self)@, scripts::eval_script(expr@), self@, pv));
        match p {
            Ok(t) => Ok(trim_end_crlf(t.as_str())),
            Err(e) => Err(e),
        }
    }

    /// Run a file on the device (execfile-style).
    pub fn run_file(&mut self, path: &str) -> (r: Result<ExecResult, MpError>)
        ensures
            runs(old(self)@, scripts::run_script(path@), final(self)@, error::outcome(r)),
    {
        self.exec(build_run_script(path).as_str())
    }

    /// Uploads a script, runs it and removes it again. Without an upload nothing runs,
    /// and what did not run to its end is left. It does not matter whether the script
    /// can be removed.
    pub fn run_upload(&mut self, remote: &str, data: &[u8]) -> (r: Result<ExecResult, MpError>)
        ensures
            runs_upload(old(self)@, remote@, data@, final(self)@, error::outcome(r)),
    {
        let ghost pre = self@;
        let written: Result<(), MpError> = self.write_file_bytes(remote, data);
        let ghost w = self@;
        assert(writes(pre, remote@, data@, w, error::outcome(written)));
        match written {
            Err(e) => {
                return Err(e);
            },
            Ok(_) => {},
        }
        let out: Result<ExecResult, MpError> = self.run_file(remote);
        let ghost m = self@;
        assert(runs(w, scripts::run_script(remote@), m, error::outcome(out)));
        if out.is_ok() {
            let removed: Result<(), MpError> = self.remove(remote);
            assert(removes(m, remote@, self@, error::outcome(removed)));
            assert(removes_or_not(m, remote@, self@));
        }
        assert(runs_then_removes(w, remote@, self@, error::outcome(out)));
        out
    }

    /// Upload raw bytes to a file on the device.
    ///
    /// Splits the data into batches of chunks and uses `exec_raw_batch`
    /// to send them in a single raw REPL session with raw-paste flow control.
    /// This avoids overflowing the device's input buffer for large files.
    pub fn write_file_bytes(&mut self, remote_path: &str, data: &[u8]) -> (r: Result<(), MpError>)
        ensures
            writes(old(self)@, remote_path@, data@, final(self)@, error::outcome(r)),
    {
        if data.len() == 0 {
            let p: Result<String, MpError> = self.exec_printing(
                build_create_script(remote_path).as_str(),
            );
            let ghost pv = error::outcome(p);
            assert(prints(old(self)@, scripts::create_script(remote_path@), self@, pv));
            return match p {
                Ok(_) => Ok(()),
                Err(e) => Err(e),
            };
        }
        let texts: Vec<String> = build_upload(remote_path, data);
        let ghost codes = encoded(scripts::upload(remote_path@, data@));
        let mut refs: Vec<&[u8]> = Vec::new();
        let mut i: usize = 0;
        assert(protocol::code_views(refs@) =~= codes.take(0));
        while i < texts.len()
            invariant
                i <= texts@.len(),
                codes == encoded(scripts::strings(texts@)),
                protocol::code_views(refs@) == codes.take(i as int),
                *self == *old(self),
            decreases texts.len() - i,
        {
            let ghost before = protocol::code_views(refs@);
            refs.push(texts[i].as_str().as_bytes());
            assert(protocol::code_views(refs@) =~= before.push(codes[i as int]));
            assert(codes.take(i + 1) =~= before.push(codes[i as int]));
            i = i + 1;
        }
        assert(codes.take(i as int) =~= codes);
        match self.session.exec_raw_batch(refs.as_slice()) {
            Err(e) => {
                assert(session::executes_batch(old(self)@, codes, self@, Err(e@)));
                Err(e)
            },
            Ok(results) => {
                let ghost outs = protocol::outputs(results@);
                assert(session::executes_batch(old(self)@, codes, self@, Ok(outs)));
                let checked: Result<(), MpError> = check_batch(&results);
                assert(batch_done(Ok(outs)) == first_failure(outs));
                checked
            },
        }
    }

    /// Download a file from the device.
    ///
    /// Uses a single exec call with a Python loop to read all chunks,
    /// a line each for reliable parsing.
    pub fn read_file(&mut self, remote_path: &str) -> (r: Result<Vec<u8>, MpError>)
        ensures
            reads(old(self)@, remote_path@, final(self)@, error::outcome(r)),
    {
        let p: Result<String, MpError> = self.exec_printing(
            build_read_script(remote_path).as_str(),
        );
        let ghost pv = error::outcome(p);
        assert(prints(old(self)@, scripts::read_script(remote_path@), self@, pv));
        match p {
            Ok(t) => parse_download(t.as_str()),
            Err(e) => Err(e),
        }
    }

    /// Read a text file and return its content as a string.
    pub fn cat(&mut self, remote_path: &str) -> (r: Result<String, MpError>)
        ensures
            exists|b: Result<Seq<u8>, ErrorView>| #[trigger]
                reads(old(self)@, remote_path@, final(self)@, b) && error::outcome(r) == as_text(b),
    {
        match self.read_file(remote_path) {
            Ok(bytes) => {
                assert(reads(old(self)@, remote_path@, self@, Ok(bytes@)));
                Ok(lossy_string(bytes.as_slice()))
            },
            Err(e) => {
                assert(reads(old(self)@, remote_path@, self@, Err(e@)));
                Err(e)
            },
        }
    }

    /// List files in a directory on the device.
    pub fn list_dir(&mut self, path: &str) -> (r: Result<Vec<String>, MpError>)
        ensures
            lists(old(self)@, path@, final(self)@, replies::names_outcome(r)),
    {
        let p: Result<String, MpError> = self.exec_printing(build_list_script(path).as_str());
        let ghost pv = error::outcome(p);
        assert(prints(old(self)@, scripts::list_script(path@), self@, pv));
        match p {
            Ok(t) => parse_listing(t.as_str()),
            Err(e) => Err(e),
        }
    }

    /// Remove a file on the device.
    pub fn remove(&mut self, path: &str) -> (r: Result<(), MpError>)
        ensures
            removes(old(self)@, path@, final(self)@, error::outcome(r)),
    {
        match self.exec(build_remove_script(path).as_str()) {
            Err(e) => {
                assert(runs(old(self)@, scripts::remove_script(path@), self@, Err(e@)));
                Err(e)
            },
            Ok(out) => {
                assert(runs(old(self)@, scripts::remove_script(path@), self@, Ok(out@)));
                if !out.is_error() {
                    return Ok(());
                }
                let stderr: String = out.stderr_str();
                if contains_text(stderr.as_str(), "ENOENT") || contains_text(
                    stderr.as_str(),
                    "Errno 2",
                ) {
                    let mut msg: String = "not found: ".to_owned();
                    msg.append(path);
                    return Err(MpError::Filesystem(msg));
                }
                Err(MpError::Execution { stdout: out.stdout_str(), stderr })
            },
        }
    }

    /// Create a directory on the device, with its parents. One that exists is no
    /// error.
    pub fn mkdir(&mut self, path: &str) -> (r: Result<(), MpError>)
        ensures
            makes_dir(old(self)@, path@, final(self)@, error::outcome(r)),
    {
        let p: Result<String, MpError> = self.exec_printing(build_mkdir_script(path).as_str());
        let ghost pv = error::outcome(p);
        assert(prints(old(self)@, scripts::mkdir_script(path@), self@, pv));
        match p {
            Ok(_) => Ok(()),
            Err(e) => Err(e),
        }
    }

    /// Soft-reset the device (CTRL-D).
    pub fn soft_reset(&mut self) -> (r: Result<(), MpError>)
        ensures
            resets(old(self)@, final(self)@, error::outcome(r)),
    {
        match self.session.enter_raw_repl(false) {
            Err(e) => {
                assert(session::enters(old(self)@, false, self@, Err(e@)));
                return Err(e);
            },
            Ok(_) => {},
        }
        let ghost entered = self@;
        assert(session::enters(old(self)@, false, entered, Ok(())));
        match self.session.send_ctrl_d() {
            Err(e) => {
                assert(self@ == entered.then_write(seq![protocol::CTRL_D], Err(e@)));
                assert(resets_entered(entered, self@, Err(e@)));
                return Err(e);
            },
            Ok(_) => {},
        }
        let ghost sent = self@;
        assert(sent == entered.then_write(seq![protocol::CTRL_D], Ok(())));
        let r: Result<(), MpError> = self.session.exit_raw_repl();
        assert(session::exits(sent, self@, error::outcome(r)));
        assert(resets_entered(entered, self@, error::outcome(r)));
        r
    }

    /// Get device information: version, platform, board, memory, filesystem.
    pub fn device_info(&mut self) -> (r: Result<DeviceInfo, MpError>)
        ensures
            informs(old(self)@, final(self)@, error::outcome(r)),
    {
        let p: Result<String, MpError> = self.exec_printing(build_info_script().as_str());
        let ghost pv = error::outcome(p);
        assert(prints(old(self)@, scripts::info_script(), self@, pv));
        match p {
            Ok(t) => Ok(parse_info(t.as_str())),
            Err(e) => Err(e),
        }
    }

    /// Send interrupt (CTRL-C) to the device without entering raw REPL.
    pub fn interrupt(&mut self) -> (r: Result<(), MpError>)
        ensures
            final(self)@ == old(self)@.then_write(
                seq![3u8, 3u8],
                error::outcome(r),
            ),
    {
        self.session.send_ctrl_c()
    }

    /// Get file/directory status on the device.
    pub fn stat(&mut self, path: &str) -> (r: Result<FileStat, MpError>)
        ensures
            stats(old(self)@, path@, final(self)@, error::outcome(r)),
    {
        let p: Result<String, MpError> = self.exec_printing(build_stat_script(path).as_str());
        let ghost pv = error::outcome(p);
        assert(prints(old(self)@, scripts::stat_script(path@), self@, pv));
        match p {
            Ok(t) => Ok(parse_stat(path, t.as_str())),
            Err(e) => Err(e),
        }
    }

    /// Brings the device to its friendly prompt, from where an interactive REPL
    /// can go on. The state of the device is kept: there is no soft reset.
    pub fn open_repl(&mut self) -> (r: Result<(), MpError>)
        ensures
            opens_repl(old(self)@, final(self)@, error::outcome(r)),
    {
        match self.session.enter_raw_repl(false) {
            Err(e) => {
                assert(session::enters(old(self)@, false, self@, Err(e@)));
                return Err(e);
            },
            Ok(_) => {},
        }
        let ghost entered = self@;
        assert(session::enters(old(self)@, false, entered, Ok(())));
        self.session.exit_raw_repl()
    }
}

/// Checks the outputs of a batch for error output.
fn check_batch(results: &Vec<ExecResult>) -> (r: Result<(), MpError>)
    ensures
        error::outcome(r) == first_failure(protocol::outputs(results@)),
{
    let ghost all = protocol::outputs(results@);
    let mut i: usize = 0;
    assert(all.skip(0) =~= all);
    while i < results.len()
        invariant
            i <= results@.len(),
            all == protocol::outputs(results@),
            first_failure(all.skip(i as int)) == first_failure(all),
        decreases results.len() - i,
    {
        assert(all.skip(i as int)[0] == results@[i as int]@);
        assert(all.skip(i as int).skip(1) =~= all.skip(i + 1));
        if results[i].is_error() {
            return Err(failed(&results[i]));
        }
        i = i + 1;
    }
    Ok(())
}

} // verus!
