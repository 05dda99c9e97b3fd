//! Whole operations against a simulated board.

use std::collections::BTreeMap;
use std::collections::VecDeque;

use mpy_probe::connection::Connection;
use mpy_probe::connection::Record;
use mpy_probe::connection::Time;
use mpy_probe::device::Device;
use mpy_probe::error::MpError;
use mpy_probe::files::FileSizes;
use mpy_probe::filter::IncludeFilter;
use mpy_probe::protocol::ExecResult;
use mpy_probe::protocol::ReplSession;
use mpy_probe::protocol::SubmitMode;
use mpy_probe::remote::LocalSide;
use mpy_probe::scripts::build_run_script;
use mpy_probe::sync::SyncNeed;
use mpy_probe::terminal::Key;
use mpy_probe::terminal::ReplInput;
use mpy_probe::walk::GetAction;
use mpy_probe::walk::GetWalk;
use mpy_probe::walk::LocalEntry;
use mpy_probe::walk::PutAction;
use mpy_probe::walk::PutWalk;

const BANNER: &[u8] = b"raw REPL; CTRL-B to exit\r\n>";

#[derive(Debug, Clone, Copy, PartialEq)]
enum Mode {
    Friendly,
    Raw,
    Pasting,
    /// Paste mode of the friendly prompt.
    Typing,
}

/// What the board answers when it is asked for raw paste.
#[derive(Debug, Clone, PartialEq)]
enum Paste {
    Supported { window: u16 },
    Rejected,
    Unknown,
    /// Bytes that follow the window of a board that misbehaves.
    Script(Vec<u8>),
}

/// A board: its files, its REPL, and what it has to say.
struct Board {
    mode: Mode,
    paste: Paste,
    out: VecDeque<u8>,
    input: Vec<u8>,
    left: usize,
    written: Vec<Vec<u8>>,
    pauses: Vec<u64>,
    time: u64,
    files: BTreeMap<String, Vec<u8>>,
    dirs: Vec<String>,
    open: Option<String>,
    replies: Vec<(String, String, String)>,
    runs: Vec<String>,
    ok: &'static [u8],
    mute: bool,
    broken: bool,
    silent: bool,
}

fn board() -> Board {
    Board {
        mode: Mode::Friendly,
        paste: Paste::Supported { window: 64 },
        out: VecDeque::new(),
        input: Vec::new(),
        left: 0,
        written: Vec::new(),
        pauses: Vec::new(),
        time: 0,
        files: BTreeMap::new(),
        dirs: vec!["/".to_string()],
        open: None,
        replies: Vec::new(),
        runs: Vec::new(),
        ok: b"OK",
        mute: false,
        broken: false,
        silent: false,
    }
}

fn unquote(literal: &str) -> String {
    let mut out = String::new();
    let mut chars = literal.strip_prefix('\'').unwrap().strip_suffix('\'').unwrap().chars();
    while let Some(c) = chars.next() {
        if c != '\\' {
            out.push(c);
            continue;
        }
        match chars.next().unwrap() {
            'n' => out.push('\n'),
            'r' => out.push('\r'),
            't' => out.push('\t'),
            'x' => {
                let digits: String = chars.by_ref().take(2).collect();
                out.push(u8::from_str_radix(&digits, 16).unwrap() as char);
            }
            other => out.push(other),
        }
    }
    out
}

fn between<'a>(s: &'a str, begin: &str, end: &str) -> Option<&'a str> {
    let rest = s.strip_prefix(begin)?;
    rest.find(end).map(|i| &rest[..i])
}

fn hex(data: &[u8]) -> String {
    data.iter().map(|b| format!("{:02x}", b)).collect()
}

impl Board {
    fn say(&mut self, data: &[u8]) {
        if self.silent {
            return;
        }
        self.out.extend(data);
    }

    fn children(&self, dir: &str) -> Vec<String> {
        let prefix = format!("{}/", dir.trim_end_matches('/'));
        let mut names: Vec<String> = Vec::new();
        for path in self.dirs.iter().chain(self.files.keys()) {
            if let Some(rest) = path.strip_prefix(&prefix) {
                if !rest.is_empty() && !rest.contains('/') {
                    names.push(rest.to_string());
                }
            }
        }
        names
    }

    fn python(&mut self, code: &str) -> (String, String) {
        for (script, stdout, stderr) in &self.replies {
            if script == code {
                return (stdout.clone(), stderr.clone());
            }
        }
        if let Some(path) = between(code, "import binascii\n__f=open(", ",'rb')") {
            return match self.files.get(&unquote(path)) {
                Some(data) => {
                    let lines: Vec<String> =
                        data.chunks(128).map(|c| format!("{}\r\n", hex(c))).collect();
                    (lines.concat(), String::new())
                }
                None => (String::new(), "OSError: [Errno 2] ENOENT\r\n".to_string()),
            };
        }
        if let Some(path) = between(code, "import os,binascii\nfor __n in os.listdir(", "):\n") {
            let path = unquote(path);
            let path = if path == "/" { path } else { path.trim_end_matches('/').to_string() };
            if !self.dirs.contains(&path) {
                return (String::new(), "OSError: [Errno 2] ENOENT\r\n".to_string());
            }
            let lines: Vec<String> =
                self.children(&path).iter().map(|n| format!("{}\r\n", hex(n.as_bytes()))).collect();
            return (lines.concat(), String::new());
        }
        if let Some(path) = between(code, "import os\ns=os.stat(", ")\nprint('mode:'") {
            let path = unquote(path);
            if self.dirs.contains(&path) {
                return ("mode:16384\r\nsize:0\r\nmtime:0\r\n".to_string(), String::new());
            }
            return match self.files.get(&path) {
                Some(data) => {
                    (format!("mode:32768\r\nsize:{}\r\nmtime:77\r\n", data.len()), String::new())
                }
                None => (String::new(), "OSError: [Errno 2] ENOENT\r\n".to_string()),
            };
        }
        if let Some(path) = between(code, "import os\np=", "\nfor i in") {
            let path = unquote(path);
            let parts: Vec<&str> = path.split('/').collect();
            for i in 1..=parts.len() {
                let dir = parts[..i].join("/").trim_end_matches('/').to_string();
                if !dir.is_empty() && !self.dirs.contains(&dir) {
                    self.dirs.push(dir);
                }
            }
            return (String::new(), String::new());
        }
        if let Some(path) = code.strip_prefix("import os; os.remove(") {
            let path = unquote(path.strip_suffix(')').unwrap());
            return match self.files.remove(&path) {
                Some(_) => (String::new(), String::new()),
                None => (String::new(), "OSError: [Errno 2] ENOENT\r\n".to_string()),
            };
        }
        for line in code.lines() {
            if let Some(path) = between(line, "__f=open(", ",'wb')") {
                let path = unquote(path);
                self.files.insert(path.clone(), Vec::new());
                self.open = Some(path);
            } else if let Some(digits) = between(line, "__f.write(bytes.fromhex('", "'))") {
                let data: Vec<u8> = (0..digits.len() / 2)
                    .map(|i| u8::from_str_radix(&digits[2 * i..2 * i + 2], 16).unwrap())
                    .collect();
                let path = self.open.clone().unwrap();
                self.files.get_mut(&path).unwrap().extend(data);
            } else if line == "__f.close()" {
                self.open = None;
            } else if line != "__f.flush()" {
                return (String::new(), format!("SyntaxError: {}\r\n", line));
            }
        }
        (String::new(), String::new())
    }

    fn run(&mut self, head: &[u8]) {
        let code = String::from_utf8(std::mem::take(&mut self.input)).unwrap();
        self.runs.push(code.clone());
        let (stdout, stderr) = self.python(&code);
        self.say(head);
        if self.mute {
            return;
        }
        self.say(stdout.as_bytes());
        self.say(&[4]);
        self.say(stderr.as_bytes());
        self.say(&[4]);
        self.say(b">");
    }

    fn receive(&mut self, b: u8) {
        match self.mode {
            Mode::Friendly => match b {
                1 => {
                    self.mode = Mode::Raw;
                    self.input.clear();
                    self.say(BANNER);
                }
                2 => self.say(b"\r\nMicroPython\r\n>>> "),
                5 => {
                    self.mode = Mode::Typing;
                    self.input.clear();
                    self.say(b"paste mode; Ctrl-C to cancel, Ctrl-D to finish\r\n=== ");
                }
                _ => {}
            },
            Mode::Typing => match b {
                4 => {
                    self.mode = Mode::Friendly;
                    self.say(b"\r\n");
                }
                _ => self.input.push(b),
            },
            Mode::Raw => match b {
                1 if self.input == b"\x05A" => {
                    self.input.clear();
                    match self.paste.clone() {
                        Paste::Supported { window } => {
                            self.say(b"R\x01");
                            self.say(&window.to_le_bytes());
                            self.left = window as usize;
                            self.mode = Mode::Pasting;
                        }
                        Paste::Rejected => self.say(b"R\x00"),
                        Paste::Unknown => {
                            self.mode = Mode::Raw;
                            self.say(BANNER);
                        }
                        Paste::Script(reply) => {
                            self.say(&reply);
                            self.left = usize::MAX;
                            self.mode = Mode::Pasting;
                        }
                    }
                }
                1 => self.say(BANNER),
                2 => {
                    self.mode = Mode::Friendly;
                    self.say(b"\r\n>>> ");
                }
                3 => self.input.clear(),
                4 if self.input.is_empty() || self.input == b"\r" => {
                    self.input.clear();
                    self.say(b"OK\r\nMPY: soft reboot\r\n");
                    self.say(BANNER);
                }
                4 => {
                    let ok = self.ok;
                    self.run(ok);
                }
                _ => self.input.push(b),
            },
            Mode::Pasting => match b {
                4 => {
                    self.mode = Mode::Raw;
                    if matches!(self.paste, Paste::Script(_)) {
                        self.input.clear();
                    } else {
                        self.run(&[4]);
                    }
                }
                3 => self.mode = Mode::Raw,
                _ => {
                    assert!(self.left > 0, "the window was overrun");
                    self.left -= 1;
                    self.input.push(b);
                }
            },
        }
    }

    /// A board that has used up its window grants another one when it is asked.
    fn grant(&mut self) {
        if let (Mode::Pasting, Paste::Supported { window }) = (self.mode, &self.paste) {
            if self.out.is_empty() && self.left == 0 {
                self.left = *window as usize;
                self.out.push_back(1);
            }
        }
    }

    fn failure(&self) -> MpError {
        MpError::Connection("unplugged".to_string())
    }
}

impl Connection for Board {
    fn record(&self) -> Record {
        unreachable!("exists in proofs only")
    }

    fn now(&self) -> Time {
        unreachable!("exists in proofs only")
    }

    fn read_exact(&mut self, n: usize, timeout_ms: u64) -> Result<Vec<u8>, MpError> {
        if self.broken {
            return Err(self.failure());
        }
        self.grant();
        if self.out.len() < n {
            self.time += timeout_ms;
            return Err(MpError::Timeout("nothing came".to_string()));
        }
        Ok(self.out.drain(..n).collect())
    }

    fn read_until(&mut self, pattern: &[u8], timeout_ms: u64) -> Result<Vec<u8>, MpError> {
        let mut got: Vec<u8> = Vec::new();
        while let Some(b) = self.out.pop_front() {
            got.push(b);
            if got.ends_with(pattern) {
                return Ok(got);
            }
        }
        self.time += timeout_ms;
        Err(MpError::Timeout("no pattern".to_string()))
    }

    fn read_all_available(&mut self) -> Result<Vec<u8>, MpError> {
        if self.broken {
            return Err(self.failure());
        }
        Ok(self.out.drain(..).collect())
    }

    fn unread(&mut self, data: &[u8]) {
        for b in data.iter().rev() {
            self.out.push_front(*b);
        }
    }

    fn write_all(&mut self, data: &[u8]) -> Result<(), MpError> {
        if self.broken {
            return Err(self.failure());
        }
        self.written.push(data.to_vec());
        for b in data {
            self.receive(*b);
        }
        Ok(())
    }

    fn incoming_is_empty(&mut self) -> bool {
        self.out.is_empty()
    }

    fn flush_input(&mut self) {
        self.out.clear();
    }

    fn pause(&mut self, ms: u64) {
        self.pauses.push(ms);
        self.time += ms;
    }

    fn clock(&mut self) -> u64 {
        self.time
    }
}

fn device(board: Board) -> Device<Board> {
    Device::new_with_timeout(board, 5_000)
}

fn protocol_message<T>(r: Result<T, MpError>) -> String {
    match r {
        Err(MpError::Protocol(msg)) => msg,
        Err(other) => panic!("{:?}", other),
        Ok(_) => panic!("no error"),
    }
}

// ---------------------------------------------------------------------------
// Sessions
// ---------------------------------------------------------------------------

#[test]
fn code_is_executed_by_raw_paste() {
    let mut b = board();
    b.replies.push(("print(1+2)".to_string(), "3\r\n".to_string(), String::new()));
    let mut s = ReplSession::new(b);
    let out = s.exec_raw(b"print(1+2)").unwrap();
    assert_eq!(out.stdout, b"3\r\n");
    assert_eq!(out.stdout_str(), "3\r\n");
    assert!(!out.is_error());
    assert!(!s.in_raw_repl());
    let b = s.conn();
    assert_eq!(b.mode, Mode::Friendly);
    let all: Vec<u8> = b.written.concat();
    assert_eq!(all, b"\x03\x03\x03\x02\r\x01\x05A\x01print(1+2)\x04\r\x02");
}

#[test]
fn output_is_split_into_stdout_and_stderr() {
    let mut b = board();
    b.replies.push(("x".to_string(), "out".to_string(), "err é".to_string()));
    let mut d = device(b);
    let out = d.exec("x").unwrap();
    assert_eq!((out.stdout_str().as_str(), out.stderr_str().as_str()), ("out", "err é"));
    assert!(out.is_error());
    let lossy = ExecResult { stdout: vec![0x61, 0xff], stderr: Vec::new() };
    assert_eq!(lossy.stdout_str(), String::from_utf8_lossy(&[0x61, 0xff]));
    assert_eq!(ExecResult::default().stdout_str(), "");
}

#[test]
fn long_code_keeps_to_the_window() {
    let mut b = board();
    b.paste = Paste::Supported { window: 16 };
    let code = "#".repeat(100);
    b.replies.push((code.clone(), "done".to_string(), String::new()));
    let mut s = ReplSession::new(b);
    assert_eq!(s.exec_raw(code.as_bytes()).unwrap().stdout, b"done");
    let sizes: Vec<usize> =
        s.conn().written.iter().filter(|w| w[0] == b'#').map(|w| w.len()).collect();
    assert_eq!(sizes, vec![16, 16, 16, 16, 16, 16, 4]);
}

#[test]
fn a_rejected_raw_paste_falls_back_to_raw_mode_for_good() {
    let mut b = board();
    b.paste = Paste::Rejected;
    let code = "y".repeat(600);
    b.replies.push((code.clone(), "done".to_string(), String::new()));
    let mut s = ReplSession::new(b);
    assert_eq!(s.exec_raw(code.as_bytes()).unwrap().stdout, b"done");
    let chunks: Vec<usize> =
        s.conn().written.iter().filter(|w| w[0] == b'y').map(|w| w.len()).collect();
    assert_eq!(chunks, vec![256, 256, 88]);
    let requests = |s: &mut ReplSession<Board>| {
        s.conn().written.iter().filter(|w| w.as_slice() == b"\x05A\x01").count()
    };
    assert_eq!(requests(&mut s), 1);
    assert_eq!(s.conn().pauses.iter().rev().take(3).collect::<Vec<_>>(), vec![&10, &10, &10]);
    s.exec_raw(code.as_bytes()).unwrap();
    assert_eq!(requests(&mut s), 1);
}

#[test]
fn a_board_that_does_not_know_raw_paste_is_served_in_raw_mode() {
    let mut b = board();
    b.paste = Paste::Unknown;
    b.replies.push(("z".to_string(), "Z".to_string(), String::new()));
    let mut s = ReplSession::new(b);
    assert_eq!(s.exec_raw(b"z").unwrap().stdout, b"Z");
}

#[test]
fn raw_paste_errors_name_their_cause() {
    let run = |paste: Paste, code: &[u8]| {
        let mut b = board();
        b.paste = paste;
        let mut s = ReplSession::new(b);
        s.enter_raw_repl(false).unwrap();
        protocol_message(s.try_submit_raw_paste(code))
    };
    assert_eq!(run(Paste::Rejected, b"x"), "device rejected raw-paste");
    assert_eq!(run(Paste::Unknown, b"x"), "device does not support raw-paste");
    assert_eq!(
        run(Paste::Script(b"R\x01\x00\x00\x01\x04".to_vec()), b"x"),
        "device aborted raw-paste transfer"
    );
    assert_eq!(
        run(Paste::Script(b"R\x01\x00\x00\x01\xab".to_vec()), b"x"),
        "unexpected byte during raw-paste: 0xab"
    );
    let mut b = board();
    b.paste = Paste::Script(b"R\x01\x10\x00\x01".to_vec());
    let mut s = ReplSession::new(b);
    s.enter_raw_repl(false).unwrap();
    match s.try_submit_raw_paste(b"x") {
        Err(MpError::Timeout(_)) => {}
        other => panic!("{:?}", other),
    }
}

#[test]
fn a_wrong_acknowledgement_is_an_error() {
    let mut b = board();
    b.paste = Paste::Script(b"R\x01\x10\x00\x01".to_vec());
    let mut s = ReplSession::new(b);
    s.enter_raw_repl(false).unwrap();
    s.conn().paste = Paste::Script(b"R\x01\x10\x00\x01\x07".to_vec());
    assert_eq!(
        protocol_message(s.try_submit_raw_paste(b"")),
        "expected CTRL-D ack after raw-paste, got 0x07"
    );
}

#[test]
fn paste_mode_sends_chunks() {
    let mut s = ReplSession::new(board());
    let code = vec![b'p'; 300];
    s.submit_paste(&code).unwrap();
    assert_eq!(s.conn().input, code);
    let sizes: Vec<usize> = s.conn().written.iter().map(|w| w.len()).collect();
    assert_eq!(sizes, vec![1, 256, 44, 1]);
    assert_eq!(s.conn().written[0], vec![5]);
    assert_eq!(s.conn().pauses, vec![2, 2]);
    s.conn().silent = true;
    assert!(matches!(s.submit_paste(b"x"), Err(MpError::Timeout(_))));
}

#[test]
fn a_board_without_a_banner_is_not_entered() {
    let mut b = board();
    b.silent = true;
    let mut s = ReplSession::with_timeout(b, 700);
    assert!(matches!(s.enter_raw_repl(false), Err(MpError::Timeout(_))));
    assert!(!s.in_raw_repl());
    let spent: u64 = s.conn().pauses.iter().sum();
    assert_eq!(s.conn().time, spent + 700);
}

#[test]
fn raw_mode_expects_ok() {
    let mut b = board();
    b.ok = b"\"\xff";
    let mut s = ReplSession::new(b);
    s.enter_raw_repl(false).unwrap();
    assert_eq!(
        protocol_message(s.submit_raw(b"x")),
        format!("expected OK after raw submit, got {:?}", String::from_utf8_lossy(b"\"\xff"))
    );
}

#[test]
fn code_that_prints_no_end_runs_into_the_timeout() {
    let mut b = board();
    b.mute = true;
    let mut s = ReplSession::new(b);
    match s.exec_raw(b"__f.flush()") {
        Err(MpError::Timeout(msg)) => assert_eq!(msg, "timeout waiting for execution output"),
        other => panic!("{:?}", other),
    }
    assert!(s.conn().time >= 30_000);
}

#[test]
fn a_soft_reset_waits_for_the_reboot() {
    let mut s = ReplSession::with_timeout(board(), 1_000);
    s.enter_raw_repl(true).unwrap();
    assert!(s.in_raw_repl());
    assert_eq!(s.conn().written.last().unwrap(), &vec![4]);
    s.exit_raw_repl().unwrap();
    assert!(!s.in_raw_repl());
    s.send_ctrl_c().unwrap();
    assert_eq!(s.conn().written.last().unwrap(), &vec![3, 3]);
    assert_eq!(SubmitMode::Raw, SubmitMode::Raw);
}

#[test]
fn a_broken_connection_is_reported() {
    let mut b = board();
    b.broken = true;
    match device(b).exec("x") {
        Err(MpError::Connection(msg)) => assert_eq!(msg, "unplugged"),
        other => panic!("{:?}", other),
    }
}

#[test]
fn a_batch_runs_in_one_raw_session() {
    let mut b = board();
    b.replies.push(("a".to_string(), "1".to_string(), String::new()));
    b.replies.push(("b".to_string(), "2".to_string(), "oops".to_string()));
    let mut s = ReplSession::new(b);
    let codes: [&[u8]; 2] = [b"a", b"b"];
    let outs = s.exec_raw_batch(&codes).unwrap();
    assert_eq!(outs[0].stdout, b"1");
    assert_eq!(outs[1].stderr, b"oops");
    let entered = s.conn().written.iter().filter(|w| w.as_slice() == b"\x01").count();
    assert_eq!(entered, 1);
}

// ---------------------------------------------------------------------------
// Files
// ---------------------------------------------------------------------------

#[test]
fn a_file_is_read_back_as_it_was_written() {
    let data: Vec<u8> = (0..5000u32).map(|i| (i * 7 % 256) as u8).collect();
    let mut d = device(board());
    d.write_file_bytes("/flash/a'b\\\n.bin", &data).unwrap();
    assert_eq!(d.conn().files["/flash/a'b\\\n.bin"], data);
    assert_eq!(d.conn().runs.len(), 3);
    assert_eq!(d.conn().open, None);
    assert_eq!(d.read_file("/flash/a'b\\\n.bin").unwrap(), data);
}

#[test]
fn a_large_file_is_read_back_as_it_was_written() {
    let data: Vec<u8> = (0..131_072u32).map(|i| (i / 3 % 256) as u8).collect();
    let mut b = board();
    b.paste = Paste::Supported { window: 1024 };
    let mut d = device(b);
    d.write_file_bytes("/big", &data).unwrap();
    assert_eq!(d.conn().runs.len(), 64);
    assert_eq!(d.read_file("/big").unwrap(), data);
}

#[test]
fn an_empty_file_is_created() {
    let mut d = device(board());
    d.write_file_bytes("/e", b"").unwrap();
    assert_eq!(d.conn().files["/e"], b"");
    assert_eq!(d.read_file("/e").unwrap(), b"");
}

#[test]
fn an_upload_never_falls_back() {
    let mut b = board();
    b.paste = Paste::Rejected;
    let mut d = device(b);
    assert_eq!(protocol_message(d.write_file_bytes("/f", b"x")), "device rejected raw-paste");
    assert_eq!(d.conn().runs.len(), 0);
}

#[test]
fn a_failed_upload_shows_what_the_board_said() {
    let mut b = board();
    let script = "__f=open('/ro','wb')\n__f.write(bytes.fromhex('61'))\n__f.flush()\n__f.close()\n";
    b.replies.push((script.to_string(), "o".to_string(), "OSError: 30".to_string()));
    match device(b).write_file_bytes("/ro", b"a") {
        Err(MpError::Execution { stdout, stderr }) => {
            assert_eq!((stdout.as_str(), stderr.as_str()), ("o", "OSError: 30"))
        }
        other => panic!("{:?}", other),
    }
}

#[test]
fn cat_shows_text() {
    let mut b = board();
    b.files.insert("/t".to_string(), "héllo".as_bytes().to_vec());
    b.files.insert("/x".to_string(), vec![0x61, 0xff]);
    let mut d = device(b);
    assert_eq!(d.cat("/t").unwrap(), "héllo");
    assert_eq!(d.cat("/x").unwrap(), String::from_utf8_lossy(&[0x61, 0xff]));
    match d.cat("/none") {
        Err(MpError::Execution { stderr, .. }) => assert!(stderr.contains("ENOENT")),
        other => panic!("{:?}", other),
    }
}

#[test]
fn directories_are_listed_and_created() {
    let mut d = device(board());
    d.mkdir("/flash/lib").unwrap();
    d.write_file_bytes("/flash/a, b'.py", b"x").unwrap();
    assert_eq!(d.list_dir("/flash").unwrap(), vec!["lib", "a, b'.py"]);
    assert_eq!(d.list_dir("/").unwrap(), vec!["flash"]);
    assert!(d.list_dir("/none").is_err());
}

#[test]
fn creating_a_directory_again_changes_nothing() {
    let mut d = device(board());
    d.mkdir("/flash/lib/deep/").unwrap();
    let before = d.conn().dirs.clone();
    assert_eq!(before, vec!["/", "/flash", "/flash/lib", "/flash/lib/deep"]);
    d.mkdir("/flash/lib/deep/").unwrap();
    d.mkdir("/flash/lib").unwrap();
    assert_eq!(d.conn().dirs, before);
}

#[test]
fn removing_tells_missing_files_from_other_errors() {
    let mut b = board();
    b.replies.push(("import os; os.remove('/ro')".to_string(), String::new(), "OSError: 30".to_string()));
    let mut d = device(b);
    d.write_file_bytes("/f", b"1").unwrap();
    d.remove("/f").unwrap();
    match d.remove("/f") {
        Err(MpError::Filesystem(msg)) => assert_eq!(msg, "not found: /f"),
        other => panic!("{:?}", other),
    }
    match d.remove("/ro") {
        Err(MpError::Execution { stderr, .. }) => assert_eq!(stderr, "OSError: 30"),
        other => panic!("{:?}", other),
    }
}

#[test]
fn values_and_files_are_run() {
    let mut b = board();
    b.replies.push(("print(repr('a'))".to_string(), "'a'\r\n".to_string(), String::new()));
    b.replies.push(("print(repr(q))".to_string(), String::new(), "NameError".to_string()));
    b.replies.push((
        "exec(open('/m.py').read(), {'__name__':'__main__','__file__':'/m.py'})".to_string(),
        "ran".to_string(),
        String::new(),
    ));
    let mut d = device(b);
    assert_eq!(d.eval("'a'").unwrap(), "'a'");
    assert!(matches!(d.eval("q"), Err(MpError::Execution { .. })));
    assert_eq!(d.run_file("/m.py").unwrap().stdout, b"ran");
}

#[test]
fn an_uploaded_script_is_run_and_removed() {
    let mut b = board();
    let run = build_run_script("/flash/main.py");
    b.replies.push((run.clone(), "hello\r\n".to_string(), "oops".to_string()));
    let mut d = device(b);
    let out = d.run_upload("/flash/main.py", b"print(1)").unwrap();
    assert_eq!((out.stdout_str().as_str(), out.stderr_str().as_str()), ("hello\r\n", "oops"));
    assert!(d.conn().files.is_empty());
    let n = d.conn().runs.len();
    assert_eq!(d.conn().runs[n - 2], run);
    assert_eq!(d.conn().runs[n - 1], "import os; os.remove('/flash/main.py')");
    d.conn().broken = true;
    assert!(d.run_upload("/flash/main.py", b"print(1)").is_err());
    assert_eq!(d.conn().runs.len(), n);
}

#[test]
fn a_board_tells_about_itself() {
    let mut b = board();
    b.files.insert("/f".to_string(), vec![1, 2, 3]);
    let mut d = device(b);
    let s = d.stat("/f").unwrap();
    assert_eq!((s.path.as_str(), s.is_dir, s.size, s.mtime), ("/f", false, 3, Some(77)));
    assert!(d.stat("/").unwrap().is_dir);
    assert!(d.stat("/none").is_err());
    d.soft_reset().unwrap();
    let sent: Vec<u8> = d.conn().written.concat();
    assert!(sent.ends_with(b"\r\x01\x04\r\x02"));
    d.interrupt().unwrap();
    assert_eq!(d.conn().written.last().unwrap(), &vec![3, 3]);
    assert!(d.device_info().is_err());
}

#[test]
fn device_info_comes_from_the_board() {
    let mut d = device(board());
    let _ = d.device_info();
    let script = d.conn().runs[0].clone();
    assert!(script.starts_with("import sys, os, gc\ngc.collect()\nprint('version:' + sys.version)\n"));
    d.conn().replies.push((script, "version:v\r\nmem_free:9\r\n".to_string(), String::new()));
    let info = d.device_info().unwrap();
    assert_eq!((info.version.as_str(), info.platform.as_str(), info.mem_free), ("v", "", Some(9)));
}

// ---------------------------------------------------------------------------
// Syncing, comparing and walking
// ---------------------------------------------------------------------------

fn sizes(files: &[(&str, u64)]) -> FileSizes {
    let mut all = FileSizes::new();
    for (path, size) in files {
        all.insert(path, *size);
    }
    all
}

fn filled() -> Device<Board> {
    let mut b = board();
    for dir in ["/flash", "/flash/lib", "/flash/.git"] {
        b.dirs.push(dir.to_string());
    }
    for (path, n) in [("/flash/main.py", 3), ("/flash/lib/a.py", 4), ("/flash/x.txt", 5), ("/flash/.git/h", 6)] {
        b.files.insert(path.to_string(), vec![b'q'; n]);
    }
    device(b)
}

#[test]
fn remote_files_are_collected_below_a_directory() {
    let mut d = filled();
    let all = d.collect_remote_files("/flash/", &[".git"], None).unwrap();
    assert_eq!(all.len(), 3);
    assert_eq!(all.get("main.py"), Some(3));
    assert_eq!(all.get("lib/a.py"), Some(4));
    assert_eq!(all.get("x.txt"), Some(5));
    let filter = IncludeFilter::parse("*.py").ok().unwrap();
    let some = d.collect_remote_files("/flash", &[".git"], Some(&filter)).unwrap();
    assert_eq!(some.len(), 2);
    assert_eq!(some.get("x.txt"), None);
    assert_eq!(d.collect_remote_files("/none", &[], None).unwrap().len(), 0);
}

#[test]
fn a_sync_makes_the_board_equal() {
    let mut d = filled();
    let local = sizes(&[("main.py", 3), ("lib/a.py", 9), ("new/b.py", 2)]);
    let before = d.conn().files.clone();
    let stats = d.sync(&local, "/flash", &[".git"], None).unwrap();
    assert_eq!((stats.uploaded, stats.deleted), (2, 1));
    assert_eq!(d.conn().files, before);
    assert!(matches!(stats.need(0, true), SyncNeed::Finished));
    let mut read: Vec<String> = Vec::new();
    for (done, action) in stats.actions.iter().enumerate() {
        let data = match stats.need(done, false) {
            SyncNeed::Content { path } => {
                read.push(path);
                vec![b'n'; action.size as usize]
            }
            SyncNeed::Nothing => Vec::new(),
            SyncNeed::Finished => panic!("an action is left"),
        };
        d.sync_step("/flash", action, &data).unwrap();
    }
    assert!(matches!(stats.need(stats.actions.len(), false), SyncNeed::Finished));
    assert_eq!(read, vec!["lib/a.py", "new/b.py"]);
    assert_eq!(d.conn().files["/flash/lib/a.py"], b"nnnnnnnnn");
    assert_eq!(d.conn().files["/flash/new/b.py"], b"nn");
    assert!(!d.conn().files.contains_key("/flash/x.txt"));
    assert!(d.conn().dirs.contains(&"/flash/new".to_string()));
    assert_eq!(d.sync(&local, "/flash", &[".git"], None).unwrap().actions.len(), 0);
}

#[test]
fn comparisons_with_a_board() {
    let mut d = filled();
    let dir = LocalSide::Files(sizes(&[("main.py", 3), ("new.py", 1)]));
    let diff = d.diff(&dir, "/flash", &[".git"], None).unwrap();
    let found: Vec<(&str, &str)> =
        diff.entries.iter().map(|e| (e.path.as_str(), e.status.as_str())).collect();
    assert_eq!(found, vec![("lib/a.py", "deleted"), ("new.py", "new"), ("x.txt", "deleted")]);
    let file = |size: u64| LocalSide::File { name: "main.py".to_string(), size };
    assert_eq!(d.diff(&file(3), "/flash/", &[], None).unwrap().entries.len(), 0);
    assert_eq!(d.diff(&file(8), "/flash/main.py", &[], None).unwrap().changed_count, 1);
    assert_eq!(d.diff(&file(8), "/flash/none.py", &[], None).unwrap().new_count, 1);
}

fn entry(name: &str, is_dir: bool) -> LocalEntry {
    LocalEntry { name: name.to_string(), is_dir }
}

#[test]
fn a_directory_is_uploaded_in_order() {
    let mut d = device(board());
    let filter = IncludeFilter::parse("*.py").ok().unwrap();
    let mut walk = PutWalk::new("", "/flash/");
    let mut asked: Vec<String> = Vec::new();
    loop {
        match d.put_step(&mut walk) {
            PutAction::ListDir { rel } => {
                asked.push(format!("list {}", rel));
                let entries = match rel.as_str() {
                    "" => vec![entry("sub", true), entry("m.py", false), entry(".git", true), entry("t.txt", false)],
                    _ => vec![entry("n.py", false)],
                };
                walk.listed(&entries, &[".git"], Some(&filter));
            }
            PutAction::ReadFile { rel } => {
                asked.push(format!("read {}", rel));
                d.put_file(&mut walk, rel.as_bytes()).unwrap();
            }
            PutAction::Finished { count } => {
                assert_eq!(count, 2);
                break;
            }
        }
    }
    assert_eq!(asked, vec!["list ", "list sub", "read sub/n.py", "read m.py"]);
    assert_eq!(d.conn().files["/flash/sub/n.py"], b"sub/n.py");
    assert_eq!(d.conn().files["/flash/m.py"], b"m.py");
    assert!(d.conn().dirs.contains(&"/flash/sub".to_string()));
}

#[test]
fn an_upload_keeps_to_the_filter_below_its_prefix() {
    let mut d = device(board());
    let filter = IncludeFilter::parse("src/a.py").ok().unwrap();
    let mut walk = PutWalk::new("src", "/");
    assert!(matches!(d.put_step(&mut walk), PutAction::ListDir { .. }));
    walk.listed(&[entry("a.py", false), entry("b.py", false)], &[], Some(&filter));
    match d.put_step(&mut walk) {
        PutAction::ReadFile { rel } => assert_eq!(rel, "src/a.py"),
        other => panic!("{:?}", other),
    }
    d.conn().broken = true;
    assert!(d.put_file(&mut walk, b"x").is_err());
    d.conn().broken = false;
    match d.put_step(&mut walk) {
        PutAction::Finished { count } => assert_eq!(count, 0),
        other => panic!("{:?}", other),
    }
    assert!(d.put_file(&mut walk, b"x").is_ok());
}

#[test]
fn a_directory_is_downloaded() {
    let mut d = filled();
    let mut walk = GetWalk::new("/flash");
    let mut seen: Vec<String> = Vec::new();
    let count = loop {
        match d.get_step(&mut walk).unwrap() {
            GetAction::CreateDir { names } => seen.push(format!("dir {}", names.join("/"))),
            GetAction::Save { names, data } => {
                seen.push(format!("file {} {}", names.join("/"), data.len()))
            }
            GetAction::GoOn => {}
            GetAction::Finished { count } => break count,
        }
    };
    assert_eq!(count, 4);
    assert_eq!(
        seen,
        vec![
            "dir ",
            "dir lib",
            "file lib/a.py 4",
            "dir .git",
            "file .git/h 6",
            "file main.py 3",
            "file x.txt 5",
        ]
    );
    let mut missing = GetWalk::new("/none");
    assert!(matches!(d.get_step(&mut missing), Ok(GetAction::CreateDir { .. })));
    assert!(d.get_step(&mut missing).is_err());
}

// ---------------------------------------------------------------------------
// The interactive REPL
// ---------------------------------------------------------------------------

#[test]
fn the_repl_passes_bytes_both_ways() {
    let mut d = device(board());
    d.open_repl().unwrap();
    assert_eq!(d.conn().mode, Mode::Friendly);
    d.conn().out.clear();
    d.conn().say(b">>> ");
    assert_eq!(d.repl_output(), b">>> ");
    let mut input = ReplInput::new();
    let typed = |c: char| Key::Char { c, control: false };
    assert!(!d.repl_key(&mut input, typed('x')).unwrap());
    assert!(!d.repl_key(&mut input, Key::Up).unwrap());
    assert!(!d.repl_key(&mut input, Key::Other).unwrap());
    let n = d.conn().written.len();
    assert_eq!(d.conn().written[n - 2..], [b"x".to_vec(), b"\x1b[A".to_vec()]);
    assert!(d.repl_key(&mut input, Key::Char { c: 'd', control: true }).unwrap());
    assert_eq!(d.conn().written.len(), n);
    d.conn().broken = true;
    assert!(d.repl_key(&mut input, typed('y')).is_err());
    assert_eq!(d.repl_output(), b"");
}
