//! Reading from a serial port: what is kept between reads, and when a read is
//! over. Also, which of several ports to open.

use vstd::prelude::*;
use vstd::slice::slice_subrange;
use vstd::slice::slice_to_vec;

use crate::error;
use crate::error::ErrorView;
use crate::error::MpError;
use crate::scripts;
use crate::text;
use crate::text::contains_text;
use crate::text::to_decimal;

verus! {

// ---------------------------------------------------------------------------
// Bytes between reads
// ---------------------------------------------------------------------------

/// Bytes that were read from the port, or pushed back, and not handed out yet.
#[derive(Debug)]
pub struct SerialBuffer {
    pending: Vec<u8>,
}

impl View for SerialBuffer {
    type V = Seq<u8>;

    closed spec fn view(&self) -> Seq<u8> {
        self.pending@
    }
}

/// What a read should do next.
#[derive(Debug, Clone, Copy, PartialEq, Eq, Structural)]
pub enum ReadStep {
    /// The read is over.
    Done,
    /// Time is up.
    TimedOut,
    /// More bytes are needed from the port.
    Read,
}

/// The smaller of two numbers.
pub open spec fn smaller(a: nat, b: nat) -> nat {
    if a <= b {
        a
    } else {
        b
    }
}

/// What a read should do next, given whether it has what it wants.
pub open spec fn read_step(satisfied: bool, now_ms: u64, deadline_ms: u64) -> ReadStep {
    if satisfied {
        ReadStep::Done
    } else if now_ms >= deadline_ms {
        ReadStep::TimedOut
    } else {
        ReadStep::Read
    }
}

fn next_step(satisfied: bool, now_ms: u64, deadline_ms: u64) -> (r: ReadStep)
    ensures
        r == read_step(satisfied, now_ms, deadline_ms),
{
    if satisfied {
        ReadStep::Done
    } else if now_ms >= deadline_ms {
        ReadStep::TimedOut
    } else {
        ReadStep::Read
    }
}

fn push_all(v: &mut Vec<u8>, more: &[u8])
    ensures
        final(v)@ == old(v)@ + more@,
{
    let mut tail: Vec<u8> = slice_to_vec(more);
    v.append(&mut tail);
}

impl SerialBuffer {
    /// An empty buffer.
    pub fn new() -> (r: SerialBuffer)
        ensures
            r@ == Seq::<u8>::empty(),
    {
        SerialBuffer { pending: Vec::new() }
    }

    /// Pushes bytes back so the next read returns them first.
    pub fn unread(&mut self, data: &[u8])
        ensures
            final(self)@ == data@ + old(self)@,
    {
        let mut all: Vec<u8> = slice_to_vec(data);
        all.append(&mut self.pending);
        self.pending = all;
    }

    /// Drops all bytes.
    pub fn clear(&mut self)
        ensures
            final(self)@ == Seq::<u8>::empty(),
    {
        self.pending = Vec::new();
    }

    /// Whether there are no bytes.
    pub fn is_empty(&self) -> (r: bool)
        ensures
            r == (self@.len() == 0),
    {
        self.pending.is_empty()
    }

    /// Hands out all bytes.
    pub fn take_all(&mut self) -> (r: Vec<u8>)
        ensures
            r@ == old(self)@,
            final(self)@ == Seq::<u8>::empty(),
    {
        let mut all: Vec<u8> = Vec::new();
        all.append(&mut self.pending);
        assert(all@ =~= old(self)@);
        all
    }

    /// Begins a read of exactly `n` bytes with those that are at hand.
    pub fn begin_exact(&mut self, n: usize) -> (r: ExactRead)
        ensures
            r@.wanted == n,
            r@.got == old(self)@.take(smaller(n as nat, old(self)@.len()) as int),
            final(self)@ == old(self)@.skip(smaller(n as nat, old(self)@.len()) as int),
    {
        let have: usize = self.pending.len();
        let k: usize = if n <= have {
            n
        } else {
            have
        };
        let got: Vec<u8> = slice_to_vec(slice_subrange(self.pending.as_slice(), 0, k));
        let rest: Vec<u8> = slice_to_vec(slice_subrange(self.pending.as_slice(), k, have));
        assert(got@ =~= self@.take(k as int));
        assert(rest@ =~= self@.skip(k as int));
        self.pending = rest;
        ExactRead { wanted: n, got }
    }

    /// Takes in bytes from the port for a read of exact length. What the read does
    /// not want is kept.
    pub fn feed_exact(&mut self, read: &mut ExactRead, chunk: &[u8])
        ensures
            final(read)@ == old(read)@.fed(chunk@),
            final(self)@ == old(self)@ + old(read)@.left_of(chunk@),
    {
        let n: usize = chunk.len();
        let have: usize = read.got.len();
        let need: usize = if have <= read.wanted {
            read.wanted - have
        } else {
            0
        };
        let k: usize = if n <= need {
            n
        } else {
            need
        };
        let part: &[u8] = slice_subrange(chunk, 0, k);
        let rest: &[u8] = slice_subrange(chunk, k, n);
        assert(part@ =~= chunk@.take(k as int));
        assert(rest@ =~= chunk@.skip(k as int));
        push_all(&mut read.got, part);
        push_all(&mut self.pending, rest);
    }

    /// Begins a read up to a pattern with all bytes that are at hand.
    pub fn begin_until(&mut self, pattern: &[u8]) -> (r: UntilRead)
        ensures
            r@ == (UntilView { pattern: pattern@, got: old(self)@ }),
            r.wf(),
            final(self)@ == Seq::<u8>::empty(),
    {
        let got: Vec<u8> = self.take_all();
        let found: bool = has_bytes(got.as_slice(), pattern);
        UntilRead { pattern: slice_to_vec(pattern), got, found }
    }
}

// ---------------------------------------------------------------------------
// Reading a number of bytes
// ---------------------------------------------------------------------------

/// A read of an exact number of bytes.
#[derive(Debug)]
pub struct ExactRead {
    wanted: usize,
    got: Vec<u8>,
}

/// The mathematical value of an `ExactRead`.
pub struct ExactView {
    pub wanted: nat,
    pub got: Seq<u8>,
}

impl View for ExactRead {
    type V = ExactView;

    closed spec fn view(&self) -> ExactView {
        ExactView { wanted: self.wanted as nat, got: self.got@ }
    }
}

impl ExactView {
    /// How many bytes are still wanted.
    pub open spec fn need(self) -> nat {
        if self.got.len() <= self.wanted {
            (self.wanted - self.got.len()) as nat
        } else {
            0
        }
    }

    /// The read after a chunk: it takes what it needs.
    pub open spec fn fed(self, chunk: Seq<u8>) -> ExactView {
        ExactView {
            wanted: self.wanted,
            got: self.got + chunk.take(smaller(chunk.len(), self.need()) as int),
        }
    }

    /// What the read leaves of a chunk.
    pub open spec fn left_of(self, chunk: Seq<u8>) -> Seq<u8> {
        chunk.skip(smaller(chunk.len(), self.need()) as int)
    }

    /// The error for a read that ran out of time.
    pub open spec fn timeout(self) -> ErrorView {
        ErrorView::Timeout(
            "read_exact: wanted "@ + text::decimal(self.wanted) + " bytes, got "@ + text::decimal(
                self.got.len(),
            ),
        )
    }
}

impl ExactRead {
    /// What to do next.
    pub fn step(&self, now_ms: u64, deadline_ms: u64) -> (r: ReadStep)
        ensures
            r == read_step(self@.got.len() >= self@.wanted, now_ms, deadline_ms),
    {
        next_step(self.got.len() >= self.wanted, now_ms, deadline_ms)
    }

    /// The error for a read that ran out of time.
    pub fn timeout_error(&self) -> (e: MpError)
        ensures
            e@ == self@.timeout(),
    {
        let mut msg: String = "read_exact: wanted ".to_owned();
        msg.append(to_decimal(self.wanted as u64).as_str());
        msg.append(" bytes, got ");
        msg.append(to_decimal(self.got.len() as u64).as_str());
        MpError::Timeout(msg)
    }

    /// The bytes that were read.
    pub fn finish(self) -> (r: Vec<u8>)
        ensures
            r@ == self@.got,
    {
        self.got
    }
}

// ---------------------------------------------------------------------------
// Reading up to a pattern
// ---------------------------------------------------------------------------

/// A read up to a pattern.
#[derive(Debug)]
pub struct UntilRead {
    pattern: Vec<u8>,
    got: Vec<u8>,
    found: bool,
}

/// The mathematical value of an `UntilRead`.
pub struct UntilView {
    pub pattern: Seq<u8>,
    pub got: Seq<u8>,
}

impl View for UntilRead {
    type V = UntilView;

    closed spec fn view(&self) -> UntilView {
        UntilView { pattern: self.pattern@, got: self.got@ }
    }
}

/// Whether a pattern occurs at a position.
pub open spec fn bytes_at(s: Seq<u8>, p: Seq<u8>, i: int) -> bool {
    0 <= i && i + p.len() <= s.len() && s.subrange(i, i + p.len()) == p
}

/// Whether a pattern occurs.
pub open spec fn holds_bytes(s: Seq<u8>, p: Seq<u8>) -> bool {
    exists|i: int| #[trigger] bytes_at(s, p, i)
}

/// Whether `p` occurs in `s` at position `i`.
fn has_bytes_at(s: &[u8], p: &[u8], i: usize) -> (r: bool)
    requires
        i + p@.len() <= s@.len(),
    ensures
        r == bytes_at(s@, p@, i as int),
{
    let n: usize = s.len();
    let mut k: usize = 0;
    let ghost part = s@.subrange(i as int, i + p@.len());
    while k < p.len()
        invariant
            n == s@.len(),
            k <= p@.len(),
            i + p@.len() <= n,
            part == s@.subrange(i as int, i + p@.len()),
            forall|j: int| 0 <= j < k ==> part[j] == p@[j],
        decreases p.len() - k,
    {
        assert(part[k as int] == s@[i + k]);
        if s[i + k] != p[k] {
            return false;
        }
        k = k + 1;
    }
    assert(part =~= p@);
    true
}

/// Whether `p` occurs in `s`.
fn has_bytes(s: &[u8], p: &[u8]) -> (r: bool)
    ensures
        r == holds_bytes(s@, p@),
{
    let n: usize = s.len();
    let m: usize = p.len();
    if m > n {
        return false;
    }
    let mut i: usize = 0;
    while i <= n - m
        invariant
            n == s@.len(),
            m == p@.len(),
            m <= n,
            i <= n - m + 1,
            forall|j: int| 0 <= j < i ==> !bytes_at(s@, p@, j),
        decreases n - m + 1 - i,
    {
        if has_bytes_at(s, p, i) {
            return true;
        }
        if i == n - m {
            assert forall|j: int| !bytes_at(s@, p@, j) by {}
            return false;
        }
        i = i + 1;
    }
    false
}

/// A pattern occurs in a longer text if it occurred before or ends it.
proof fn lemma_one_more_byte(s: Seq<u8>, b: u8, p: Seq<u8>)
    ensures
        holds_bytes(s.push(b), p) == (holds_bytes(s, p) || bytes_at(
            s.push(b),
            p,
            s.len() + 1 - p.len(),
        )),
{
    let t = s.push(b);
    if holds_bytes(s, p) {
        let i = choose|i: int| #[trigger] bytes_at(s, p, i);
        assert(t.subrange(i, i + p.len()) =~= s.subrange(i, i + p.len()));
        assert(bytes_at(t, p, i));
    }
    if holds_bytes(t, p) {
        let i = choose|i: int| #[trigger] bytes_at(t, p, i);
        if i + p.len() <= s.len() {
            assert(t.subrange(i, i + p.len()) =~= s.subrange(i, i + p.len()));
            assert(bytes_at(s, p, i));
        }
    }
}

/// Bytes as a list of numbers, in brackets.
pub open spec fn byte_list(p: Seq<u8>) -> Seq<char> {
    "["@ + byte_items(p) + "]"@
}

/// Bytes as numbers with commas in between.
pub open spec fn byte_items(p: Seq<u8>) -> Seq<char>
    decreases p.len(),
{
    if p.len() == 0 {
        Seq::empty()
    } else if p.len() == 1 {
        text::decimal(p[0] as nat)
    } else {
        byte_items(p.drop_last()) + ", "@ + text::decimal(p.last() as nat)
    }
}

impl UntilView {
    /// The error for a read that ran out of time.
    pub open spec fn timeout(self) -> ErrorView {
        ErrorView::Timeout(
            "read_until: pattern "@ + byte_list(self.pattern) + " not found within timeout"@,
        )
    }
}

impl UntilRead {
    /// The read knows whether it has seen its pattern.
    pub closed spec fn wf(&self) -> bool {
        self.found == holds_bytes(self.got@, self.pattern@)
    }

    /// Takes in a byte from the port.
    pub fn feed(&mut self, b: u8)
        requires
            old(self).wf(),
        ensures
            final(self).wf(),
            final(self)@ == (UntilView {
                pattern: old(self)@.pattern,
                got: old(self)@.got.push(b),
            }),
    {
        let ghost before = self.got@;
        proof {
            lemma_one_more_byte(before, b, self.pattern@);
        }
        self.got.push(b);
        let n: usize = self.got.len();
        let m: usize = self.pattern.len();
        if !self.found && m <= n && has_bytes_at(
            self.got.as_slice(),
            self.pattern.as_slice(),
            n - m,
        ) {
            self.found = true;
        }
    }

    /// What to do next: the read is over as soon as the pattern is found among all
    /// bytes that it has consumed.
    pub fn step(&self, now_ms: u64, deadline_ms: u64) -> (r: ReadStep)
        requires
            self.wf(),
        ensures
            r == read_step(holds_bytes(self@.got, self@.pattern), now_ms, deadline_ms),
    {
        next_step(self.found, now_ms, deadline_ms)
    }

    /// The error for a read that ran out of time.
    pub fn timeout_error(&self) -> (e: MpError)
        ensures
            e@ == self@.timeout(),
    {
        let ghost all = self.pattern@;
        let mut items: String = String::new();
        let mut i: usize = 0;
        assert(items@ =~= byte_items(all.take(0)));
        while i < self.pattern.len()
            invariant
                i <= self.pattern@.len(),
                all == self.pattern@,
                items@ == byte_items(all.take(i as int)),
            decreases self.pattern@.len() - i,
        {
            assert(all.take(i + 1).drop_last() =~= all.take(i as int));
            if i > 0 {
                items.append(", ");
            }
            items.append(to_decimal(self.pattern[i] as u64).as_str());
            proof {
                if i == 0 {
                    assert(items@ =~= text::decimal(all[0] as nat));
                }
            }
            i = i + 1;
        }
        assert(all.take(i as int) =~= all);
        let mut msg: String = "read_until: pattern ".to_owned();
        msg.append("[");
        msg.append(items.as_str());
        msg.append("]");
        msg.append(" not found within timeout");
        assert(msg@ =~= "read_until: pattern "@ + byte_list(all) + " not found within timeout"@);
        MpError::Timeout(msg)
    }

    /// The bytes that were read.
    pub fn finish(self) -> (r: Vec<u8>)
        ensures
            r@ == self@.got,
    {
        self.got
    }
}

// ---------------------------------------------------------------------------
// Laws
// ---------------------------------------------------------------------------

/// Bytes that were pushed back come first: a read of as many bytes gives them.
pub proof fn law_pushed_back_bytes_come_first(pending: Seq<u8>, data: Seq<u8>)
    ensures
        (data + pending).take(smaller(data.len(), (data + pending).len()) as int) == data,
        (data + pending).skip(smaller(data.len(), (data + pending).len()) as int) == pending,
{
    let all = data + pending;
    assert(all.take(data.len() as int) =~= data);
    assert(all.skip(data.len() as int) =~= pending);
}

/// A read up to a pattern stops at it: with the byte that completes the pattern,
/// the bytes end with it.
pub proof fn law_until_read_stops_at_the_pattern(got: Seq<u8>, b: u8, pattern: Seq<u8>)
    requires
        !holds_bytes(got, pattern),
        holds_bytes(got.push(b), pattern),
    ensures
        pattern.len() <= got.push(b).len(),
        got.push(b).skip(got.push(b).len() - pattern.len()) == pattern,
{
    lemma_one_more_byte(got, b, pattern);
    let all = got.push(b);
    let i = all.len() - pattern.len();
    assert(bytes_at(all, pattern, i));
    assert(all.skip(i) =~= all.subrange(i, i + pattern.len()));
}

/// A read of exact length loses no byte: what it has taken and what it leaves are
/// the bytes that came in, in their order, and it never takes more than it wants.
pub proof fn law_exact_read_loses_nothing(read: ExactView, chunk: Seq<u8>)
    requires
        read.got.len() <= read.wanted,
    ensures
        read.fed(chunk).got + read.left_of(chunk) == read.got + chunk,
        read.fed(chunk).got.len() <= read.wanted,
        read.left_of(chunk).len() > 0 ==> read.fed(chunk).got.len() == read.wanted,
{
    let k = smaller(chunk.len(), read.need()) as int;
    assert(chunk.take(k) + chunk.skip(k) =~= chunk);
    assert(read.fed(chunk).got + read.left_of(chunk) =~= read.got + chunk);
}

/// Chunks one after the other.
pub open spec fn concat(chunks: Seq<Seq<u8>>) -> Seq<u8>
    decreases chunks.len(),
{
    if chunks.len() == 0 {
        Seq::empty()
    } else {
        concat(chunks.drop_last()) + chunks.last()
    }
}

/// A read of `n` bytes that begins with the bytes `at_hand` and is fed chunks: what it
/// has, and what the buffer keeps.
pub open spec fn exact_run(at_hand: Seq<u8>, n: nat, chunks: Seq<Seq<u8>>) -> (ExactView, Seq<u8>)
    decreases chunks.len(),
{
    if chunks.len() == 0 {
        let k = smaller(n, at_hand.len()) as int;
        (ExactView { wanted: n, got: at_hand.take(k) }, at_hand.skip(k))
    } else {
        let (read, kept) = exact_run(at_hand, n, chunks.drop_last());
        (read.fed(chunks.last()), kept + read.left_of(chunks.last()))
    }
}

/// A read of `n` bytes after `d` was pushed back gives the first `n` bytes of `d`
/// followed by the stream: what the buffer held, and what the port hands over, in
/// however many chunks of whatever size. The rest is kept in its order, so no byte is
/// lost, repeated or moved. Once enough has come the read is over, and a read of
/// nothing takes nothing.
pub proof fn law_reads_go_on_with_the_stream(
    d: Seq<u8>,
    pending: Seq<u8>,
    n: nat,
    chunks: Seq<Seq<u8>>,
    now_ms: u64,
    deadline_ms: u64,
)
    ensures
        ({
            let stream = d + (pending + concat(chunks));
            let (read, kept) = exact_run(d + pending, n, chunks);
            let k = smaller(n, stream.len()) as int;
            &&& read.wanted == n
            &&& read.got == stream.take(k)
            &&& kept == stream.skip(k)
            &&& n <= stream.len() ==> read.got == stream.take(n as int) && kept == stream.skip(
                n as int,
            ) && read_step(read.got.len() >= read.wanted, now_ms, deadline_ms) == ReadStep::Done
            &&& n == 0 ==> read.got.len() == 0 && kept == stream
        }),
    decreases chunks.len(),
{
    let at_hand = d + pending;
    let stream = d + (pending + concat(chunks));
    let k = smaller(n, stream.len()) as int;
    if chunks.len() == 0 {
        assert(stream =~= at_hand);
    } else {
        let before = d + (pending + concat(chunks.drop_last()));
        let last = chunks.last();
        law_reads_go_on_with_the_stream(d, pending, n, chunks.drop_last(), now_ms, deadline_ms);
        let (read, kept) = exact_run(at_hand, n, chunks.drop_last());
        assert(stream =~= before + last);
        let j = smaller(n, before.len()) as int;
        assert(read.got.len() == j);
        let take = smaller(last.len(), read.need()) as int;
        assert(read.got + last.take(take) =~= stream.take(k));
        assert(kept + last.skip(take) =~= stream.skip(k));
    }
    assert(stream.skip(0) =~= stream);
}

// ---------------------------------------------------------------------------
// Choosing a port
// ---------------------------------------------------------------------------

/// Whether a port may be a device.
pub open spec fn may_be_device(name: Seq<char>) -> bool {
    text::has_text(name, "ttyACM"@) || text::has_text(name, "ttyUSB"@)
}

/// The port to open: the first one that may be a device.
pub open spec fn chosen_port(names: Seq<Seq<char>>) -> Result<Seq<char>, ErrorView>
    decreases names.len(),
{
    if names.len() == 0 {
        Err(ErrorView::Connection("no MicroPython device found (no ttyACM/ttyUSB ports)"@))
    } else if may_be_device(names[0]) {
        Ok(names[0])
    } else {
        chosen_port(names.skip(1))
    }
}

/// Chooses the port to open.
/// Returns the first matching port path.
pub fn detect_port(names: &[String]) -> (r: Result<String, MpError>)
    ensures
        error::outcome(r) == chosen_port(scripts::strings(names@)),
{
    let ghost all = scripts::strings(names@);
    let mut i: usize = 0;
    assert(all.skip(0) =~= all);
    while i < names.len()
        invariant
            i <= names@.len(),
            all == scripts::strings(names@),
            chosen_port(all.skip(i as int)) == chosen_port(all),
        decreases names@.len() - i,
    {
        assert(all.skip(i as int)[0] == names@[i as int]@);
        assert(all.skip(i as int).skip(1) =~= all.skip(i + 1));
        let name: &str = names[i].as_str();
        if contains_text(name, "ttyACM") || contains_text(name, "ttyUSB") {
            return Ok(name.to_owned());
        }
        i = i + 1;
    }
    assert(all.skip(i as int).len() == 0);
    Err(MpError::Connection("no MicroPython device found (no ttyACM/ttyUSB ports)".to_owned()))
}

} // verus!
