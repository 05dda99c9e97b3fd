//! The errors of the library.

use vstd::prelude::*;

verus! {

/// What can go wrong while talking to a device.
#[derive(Debug)]
pub enum MpError {
    Connection(String),
    Timeout(String),
    Protocol(String),
    Execution { stdout: String, stderr: String },
    Filesystem(String),
    InvalidInput(String),
}

/// The mathematical value of an `MpError`.
pub enum ErrorView {
    Connection(Seq<char>),
    Timeout(Seq<char>),
    Protocol(Seq<char>),
    Execution { stdout: Seq<char>, stderr: Seq<char> },
    Filesystem(Seq<char>),
    InvalidInput(Seq<char>),
}

impl View for MpError {
    type V = ErrorView;

    open spec fn view(&self) -> ErrorView {
        match *self {
            MpError::Connection(msg) => ErrorView::Connection(msg@),
            MpError::Timeout(msg) => ErrorView::Timeout(msg@),
            MpError::Protocol(msg) => ErrorView::Protocol(msg@),
            MpError::Execution { stdout, stderr } => ErrorView::Execution {
                stdout: stdout@,
                stderr: stderr@,
            },
            MpError::Filesystem(msg) => ErrorView::Filesystem(msg@),
            MpError::InvalidInput(msg) => ErrorView::InvalidInput(msg@),
        }
    }
}

/// The mathematical value of a result.
pub open spec fn outcome<T: View>(r: Result<T, MpError>) -> Result<T::V, ErrorView> {
    match r {
        Ok(v) => Ok(v@),
        Err(e) => Err(e@),
    }
}

impl ErrorView {
    /// The text shown for an error: its kind, then its message. A failed
    /// execution shows the output streams that are not empty.
    pub open spec fn message(self) -> Seq<char> {
        match self {
            ErrorView::Connection(msg) => "connection error: "@ + msg,
            ErrorView::Timeout(msg) => "timeout: "@ + msg,
            ErrorView::Protocol(msg) => "protocol error: "@ + msg,
            ErrorView::Execution { stdout, stderr } => {
                let head = "execution error"@;
                let out = if stdout.len() > 0 {
                    "\nstdout:\n"@ + stdout
                } else {
                    Seq::empty()
                };
                let err = if stderr.len() > 0 {
                    "\nstderr:\n"@ + stderr
                } else {
                    Seq::empty()
                };
                head + out + err
            },
            ErrorView::Filesystem(msg) => "filesystem error: "@ + msg,
            ErrorView::InvalidInput(msg) => "invalid input: "@ + msg,
        }
    }
}

impl MpError {
    /// The text shown to a user.
    pub fn message(&self) -> (r: String)
        ensures
            r@ == self@.message(),
    {
        match self {
            MpError::Connection(msg) => labelled("connection error: ", msg),
            MpError::Timeout(msg) => labelled("timeout: ", msg),
            MpError::Protocol(msg) => labelled("protocol error: ", msg),
            MpError::Execution { stdout, stderr } => {
                let mut out: String = "execution error".to_owned();
                if !stdout.as_str().is_empty() {
                    out.append("\nstdout:\n");
                    out.append(stdout.as_str());
                }
                if !stderr.as_str().is_empty() {
                    out.append("\nstderr:\n");
                    out.append(stderr.as_str());
                }
                proof {
                    assert(out@ =~= self@.message());
                }
                out
            },
            MpError::Filesystem(msg) => labelled("filesystem error: ", msg),
            MpError::InvalidInput(msg) => labelled("invalid input: ", msg),
        }
    }
}

fn labelled(label: &str, msg: &String) -> (r: String)
    ensures
        r@ == label@ + msg@,
{
    let mut out: String = label.to_owned();
    out.append(msg.as_str());
    out
}

/// The type `std::io::Error`.
#[verifier::external_type_specification]
#[verifier::external_body]
pub struct ExIoError(std::io::Error);

/// Writes a `std::io::Error` with its `Display`. Nothing is claimed of the text,
/// which is up to the operating system.
#[verifier::external_body]
fn io_error_text(e: &std::io::Error) -> (r: String) {
    e.to_string()
}

impl From<std::io::Error> for MpError {
    /// An error of the operating system is one of the connection, with the system's
    /// own text.
    fn from(e: std::io::Error) -> (r: MpError)
        ensures
            r is Connection,
    {
        MpError::Connection(io_error_text(&e))
    }
}

impl vstd::std_specs::convert::FromSpecImpl<std::io::Error> for MpError {
    open spec fn obeys_from_spec() -> bool {
        false
    }

    open spec fn from_spec(e: std::io::Error) -> MpError {
        arbitrary()
    }
}

} // verus!
