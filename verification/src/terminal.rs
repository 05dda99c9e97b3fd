//! The interactive REPL: which bytes a key sends, and which keys leave it.

use vstd::prelude::*;

use crate::connection::Connection;
use crate::device::Device;
use crate::error;
use crate::error::ErrorView;
use crate::error::MpError;
use crate::session::SessionView;
use crate::text::chars_eq;
use crate::text::to_chars;

verus! {

/// A key that was pressed.
#[derive(Debug, Clone, Copy)]
pub enum Key {
    Char { c: char, control: bool },
    Enter,
    Backspace,
    Tab,
    Esc,
    Up,
    Down,
    Right,
    Left,
    Home,
    End,
    Delete,
    PageUp,
    PageDown,
    Other,
}

/// The low byte of a character.
pub open spec fn low_byte(c: char) -> u8 {
    (c as u32 % 256) as u8
}

/// A letter in lower case; any other character as it is.
pub open spec fn lower(c: char) -> char {
    if 'A' <= c <= 'Z' {
        (c as u32 + 32) as char
    } else {
        c
    }
}

/// The control character for a letter: 0x01 for `a` up to 0x1a for `z`.
pub open spec fn control_bytes(c: char) -> Seq<u8> {
    let b = low_byte(lower(c));
    if 0x61 <= b <= 0x7a {
        seq![(b - 0x60) as u8]
    } else {
        Seq::empty()
    }
}

/// The bytes that a key sends, where it sends any. The keys that move the cursor
/// send VT100 escape sequences.
pub open spec fn key_bytes(key: Key) -> Seq<u8> {
    match key {
        Key::Char { c, control } => if control {
            control_bytes(c)
        } else {
            seq![low_byte(c)]
        },
        Key::Enter => seq![0x0du8],
        Key::Backspace => seq![0x08u8],
        Key::Tab => seq![0x09u8],
        Key::Esc => seq![0x1bu8],
        Key::Up => seq![0x1bu8, 0x5bu8, 0x41u8],
        Key::Down => seq![0x1bu8, 0x5bu8, 0x42u8],
        Key::Right => seq![0x1bu8, 0x5bu8, 0x43u8],
        Key::Left => seq![0x1bu8, 0x5bu8, 0x44u8],
        Key::Home => seq![0x1bu8, 0x5bu8, 0x48u8],
        Key::End => seq![0x1bu8, 0x5bu8, 0x46u8],
        Key::Delete => seq![0x1bu8, 0x5bu8, 0x33u8, 0x7eu8],
        Key::PageUp => seq![0x1bu8, 0x5bu8, 0x35u8, 0x7eu8],
        Key::PageDown => seq![0x1bu8, 0x5bu8, 0x36u8, 0x7eu8],
        Key::Other => Seq::empty(),
    }
}

/// The line as typed so far, after one more key.
pub open spec fn typed(line: Seq<char>, key: Key) -> Seq<char> {
    match key {
        Key::Char { c, control } => if control {
            line
        } else {
            line.push(c)
        },
        Key::Enter => Seq::empty(),
        Key::Backspace => if line.len() > 0 {
            line.drop_last()
        } else {
            line
        },
        _ => line,
    }
}

/// Whether a key leaves the REPL: Ctrl-C and Ctrl-D do, and Enter after `exit()`.
pub open spec fn leaves(line: Seq<char>, key: Key) -> bool {
    match key {
        Key::Char { c, control } => control && (c == 'c' || c == 'd'),
        Key::Enter => line == "exit()"@,
        _ => false,
    }
}

/// The bytes that a key sends.
pub fn bytes_of_key(key: Key) -> (r: Vec<u8>)
    ensures
        r@ == key_bytes(key),
{
    match key {
        Key::Char { c, control } => {
            let mut r: Vec<u8> = Vec::new();
            let u: u32 = c as u32;
            if control {
                let l: u32 = if 'A' <= c && c <= 'Z' {
                    u + 32
                } else {
                    u
                };
                let b: u8 = (l % 256) as u8;
                if 0x61 <= b && b <= 0x7a {
                    r.push(b - 0x60);
                }
            } else {
                r.push((u % 256) as u8);
            }
            assert(r@ =~= key_bytes(key));
            r
        },
        Key::Enter => vec![0x0du8],
        Key::Backspace => vec![0x08u8],
        Key::Tab => vec![0x09u8],
        Key::Esc => vec![0x1bu8],
        Key::Up => vec![0x1bu8, 0x5bu8, 0x41u8],
        Key::Down => vec![0x1bu8, 0x5bu8, 0x42u8],
        Key::Right => vec![0x1bu8, 0x5bu8, 0x43u8],
        Key::Left => vec![0x1bu8, 0x5bu8, 0x44u8],
        Key::Home => vec![0x1bu8, 0x5bu8, 0x48u8],
        Key::End => vec![0x1bu8, 0x5bu8, 0x46u8],
        Key::Delete => vec![0x1bu8, 0x5bu8, 0x33u8, 0x7eu8],
        Key::PageUp => vec![0x1bu8, 0x5bu8, 0x35u8, 0x7eu8],
        Key::PageDown => vec![0x1bu8, 0x5bu8, 0x36u8, 0x7eu8],
        Key::Other => Vec::new(),
    }
}

/// What was typed on the current line.
#[derive(Debug)]
pub struct ReplInput {
    line: Vec<char>,
}

impl View for ReplInput {
    type V = Seq<char>;

    closed spec fn view(&self) -> Seq<char> {
        self.line@
    }
}

impl ReplInput {
    /// Nothing typed yet.
    pub fn new() -> (r: ReplInput)
        ensures
            r@ == Seq::<char>::empty(),
    {
        ReplInput { line: Vec::new() }
    }

    /// Takes in a key, and tells whether it leaves the REPL.
    pub fn press(&mut self, key: Key) -> (leave: bool)
        ensures
            leave == leaves(old(self)@, key),
            final(self)@ == typed(old(self)@, key),
    {
        match key {
            Key::Char { c, control } => {
                if control {
                    c == 'c' || c == 'd'
                } else {
                    self.line.push(c);
                    false
                }
            },
            Key::Enter => {
                let leave: bool = chars_eq(self.line.as_slice(), to_chars("exit()").as_slice());
                self.line = Vec::new();
                leave
            },
            Key::Backspace => {
                let _ = self.line.pop();
                assert(self@ =~= typed(old(self)@, key));
                false
            },
            _ => false,
        }
    }
}

/// A key was handled: it leaves the REPL, or its bytes are sent to the device.
pub open spec fn handles(
    pre: SessionView,
    line: Seq<char>,
    key: Key,
    post: SessionView,
    r: Result<bool, ErrorView>,
) -> bool {
    if leaves(line, key) {
        post == pre && r == Ok::<bool, ErrorView>(true)
    } else if key_bytes(key).len() == 0 {
        post == pre && r == Ok::<bool, ErrorView>(false)
    } else {
        match r {
            Ok(leave) => !leave && post == pre.then_write(key_bytes(key), Ok(())),
            Err(e) => post == pre.then_write(key_bytes(key), Err(e)),
        }
    }
}

/// What the device has sent in an exchange; a failed read counts as nothing.
pub open spec fn shown(reply: Result<Seq<u8>, ErrorView>) -> Seq<u8> {
    match reply {
        Ok(data) => data,
        Err(_) => Seq::empty(),
    }
}

impl<C: Connection> Device<C> {
    /// What the device has sent, to be shown in an interactive REPL.
    pub fn repl_output(&mut self) -> (r: Vec<u8>)
        ensures
            final(self)@.record.len() > 0,
            final(self)@ == old(self)@.then_exchange(final(self)@.record.last()),
            match final(self)@.record.last().available() {
                Some(reply) => r@ == shown(reply),
                None => false,
            },
    {
        match self.conn().read_all_available() {
            Ok(data) => data,
            Err(_) => Vec::new(),
        }
    }

    /// Handles a key that was pressed in an interactive REPL, and tells whether it
    /// leaves the REPL.
    pub fn repl_key(&mut self, input: &mut ReplInput, key: Key) -> (r: Result<bool, MpError>)
        ensures
            handles(old(self)@, old(input)@, key, final(self)@, match r {
                Ok(b) => Ok(b),
                Err(e) => Err(e@),
            }),
            final(input)@ == typed(old(input)@, key),
    {
        if input.press(key) {
            return Ok(true);
        }
        let bytes: Vec<u8> = bytes_of_key(key);
        if bytes.is_empty() {
            return Ok(false);
        }
        match self.conn().write_all(bytes.as_slice()) {
            Ok(_) => Ok(false),
            Err(e) => Err(e),
        }
    }
}

} // verus!
