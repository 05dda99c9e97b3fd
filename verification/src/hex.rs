//! Bytes as hexadecimal text.

use vstd::prelude::*;

use crate::error;
use crate::error::ErrorView;
use crate::error::MpError;
use crate::text;
use crate::text::from_chars;
use crate::text::to_chars;
use crate::text::trim;
use crate::unicode;
use crate::unicode::string_from_utf8;

verus! {

/// The lower-case digit for a value below sixteen.
pub open spec fn hex_digit(v: int) -> char {
    if v < 10 {
        ('0' as u32 + v) as char
    } else {
        ('a' as u32 + v - 10) as char
    }
}

/// A byte as two lower-case digits.
pub open spec fn hex_byte(b: u8) -> Seq<char> {
    seq![hex_digit(b as int / 16), hex_digit(b as int % 16)]
}

/// Bytes as text, two lower-case digits each.
pub open spec fn hex_text(data: Seq<u8>) -> Seq<char>
    decreases data.len(),
{
    if data.len() == 0 {
        Seq::empty()
    } else {
        hex_byte(data[0]) + hex_text(data.skip(1))
    }
}

/// The value of a digit of either case.
pub open spec fn hex_digit_value(c: char) -> Option<int> {
    if '0' <= c <= '9' {
        Some(c as u32 - '0' as u32)
    } else if 'a' <= c <= 'f' {
        Some(c as u32 - 'a' as u32 + 10)
    } else if 'A' <= c <= 'F' {
        Some(c as u32 - 'A' as u32 + 10)
    } else {
        None
    }
}

/// The byte that two characters stand for: two digits, or a sign `+` and a digit.
pub open spec fn hex_pair_value(a: char, b: char) -> Option<u8> {
    match (hex_digit_value(a), hex_digit_value(b)) {
        (Some(hi), Some(lo)) => Some((16 * hi + lo) as u8),
        (None, Some(lo)) => if a == '+' {
            Some(lo as u8)
        } else {
            None
        },
        _ => None,
    }
}

/// The bytes that pairs of characters stand for, if every pair stands for one.
pub open spec fn hex_value(s: Seq<char>) -> Option<Seq<u8>>
    decreases s.len(),
{
    if s.len() == 0 {
        Some(Seq::empty())
    } else if s.len() == 1 {
        None
    } else {
        match (hex_pair_value(s[0], s[1]), hex_value(s.skip(2))) {
            (Some(b), Some(rest)) => Some(seq![b] + rest),
            _ => None,
        }
    }
}

/// What reading a text as hexadecimal gives. White space around it is ignored;
/// the UTF-8 form of the rest has an even length, and every pair is a byte.
pub open spec fn hex_bytes(s: Seq<char>) -> Result<Seq<u8>, ErrorView> {
    let t = text::trimmed(s);
    if vstd::utf8::encode_utf8(t).len() % 2 != 0 {
        Err(ErrorView::Protocol("invalid hex byte string: "@ + t))
    } else {
        match hex_value(t) {
            Some(bytes) => Ok(bytes),
            None => Err(
                ErrorView::Protocol(
                    "invalid hex byte string '"@ + t + "': invalid digit found in string"@,
                ),
            ),
        }
    }
}

/// What reading a text as the hexadecimal form of a UTF-8 string gives.
pub open spec fn hex_string(s: Seq<char>) -> Result<Seq<char>, ErrorView> {
    match hex_bytes(s) {
        Ok(bytes) => if vstd::utf8::valid_utf8(bytes) {
            Ok(vstd::utf8::decode_utf8(bytes))
        } else {
            Err(
                ErrorView::Protocol(
                    "invalid UTF-8 filename from device: "@ + unicode::utf8_error(bytes),
                ),
            )
        },
        Err(e) => Err(e),
    }
}

fn digit_char(v: u8) -> (c: char)
    requires
        v < 16,
    ensures
        c == hex_digit(v as int),
{
    match v {
        0 => '0',
        1 => '1',
        2 => '2',
        3 => '3',
        4 => '4',
        5 => '5',
        6 => '6',
        7 => '7',
        8 => '8',
        9 => '9',
        10 => 'a',
        11 => 'b',
        12 => 'c',
        13 => 'd',
        14 => 'e',
        _ => 'f',
    }
}

fn digit_value(c: char) -> (r: Option<u8>)
    ensures
        match r {
            Some(v) => hex_digit_value(c) == Some(v as int) && v < 16,
            None => hex_digit_value(c) is None,
        },
{
    if '0' <= c && c <= '9' {
        Some((c as u32 - '0' as u32) as u8)
    } else if 'a' <= c && c <= 'f' {
        Some((c as u32 - 'a' as u32 + 10) as u8)
    } else if 'A' <= c && c <= 'F' {
        Some((c as u32 - 'A' as u32 + 10) as u8)
    } else {
        None
    }
}

/// Appends a byte as two digits.
pub fn push_hex_byte(out: &mut String, b: u8)
    ensures
        final(out)@ == old(out)@ + hex_byte(b),
{
    out.push(digit_char(b / 16));
    out.push(digit_char(b % 16));
    assert(out@ =~= old(out)@ + hex_byte(b));
}

/// Appends bytes, two digits each.
pub fn push_hex(out: &mut String, data: &[u8])
    ensures
        final(out)@ == old(out)@ + hex_text(data@),
{
    let mut i: usize = 0;
    assert(data@.skip(0) =~= data@);
    while i < data.len()
        invariant
            i <= data.len(),
            out@ + hex_text(data@.skip(i as int)) == old(out)@ + hex_text(data@),
        decreases data.len() - i,
    {
        let ghost before = out@;
        push_hex_byte(out, data[i]);
        assert(data@.skip(i as int).skip(1) =~= data@.skip(i + 1));
        assert(out@ + hex_text(data@.skip(i + 1)) =~= before + hex_text(data@.skip(i as int)));
        i = i + 1;
    }
    assert(out@ + hex_text(data@.skip(i as int)) =~= out@);
}

fn pair_value(a: char, b: char) -> (r: Option<u8>)
    ensures
        r == hex_pair_value(a, b),
{
    match digit_value(b) {
        None => None,
        Some(lo) => match digit_value(a) {
            Some(hi) => Some(16 * hi + lo),
            None => if a == '+' {
                Some(lo)
            } else {
                None
            },
        },
    }
}

fn decode_pairs(s: &[char]) -> (r: Option<Vec<u8>>)
    ensures
        match r {
            Some(bytes) => hex_value(s@) == Some(bytes@),
            None => hex_value(s@) is None,
        },
{
    let n: usize = s.len();
    let mut out: Vec<u8> = Vec::new();
    let mut i: usize = 0;
    assert(s@.skip(0) =~= s@);
    proof {
        if hex_value(s@) is Some {
            assert(out@ + hex_value(s@)->0 =~= hex_value(s@)->0);
        }
    }
    while i < n
        invariant
            n == s@.len(),
            i <= n,
            match hex_value(s@.skip(i as int)) {
                Some(rest) => hex_value(s@) == Some(out@ + rest),
                None => hex_value(s@) is None,
            },
        decreases n - i,
    {
        if n - i == 1 {
            return None;
        }
        assert(s@.skip(i as int).skip(2) =~= s@.skip(i + 2));
        match pair_value(s[i], s[i + 1]) {
            Some(b) => {
                let ghost before = out@;
                out.push(b);
                proof {
                    if hex_value(s@.skip(i + 2)) is Some {
                        let rest = hex_value(s@.skip(i + 2))->0;
                        assert(out@ + rest =~= before + (seq![b] + rest));
                    }
                }
            },
            None => {
                return None;
            },
        }
        i = i + 2;
    }
    assert(s@.skip(n as int).len() == 0);
    assert(out@ + Seq::<u8>::empty() =~= out@);
    Some(out)
}

/// Reads a text of hexadecimal digits as bytes.
pub fn parse_hex_bytes(s: &str) -> (r: Result<Vec<u8>, MpError>)
    ensures
        error::outcome(r) == hex_bytes(s@),
{
    let all: Vec<char> = to_chars(s);
    let t: &[char] = trim(all.as_slice());
    let shown: String = from_chars(t);
    if shown.as_str().as_bytes().len() % 2 != 0 {
        let mut msg: String = "invalid hex byte string: ".to_owned();
        msg.append(shown.as_str());
        return Err(MpError::Protocol(msg));
    }
    match decode_pairs(t) {
        Some(bytes) => Ok(bytes),
        None => {
            let mut msg: String = "invalid hex byte string '".to_owned();
            msg.append(shown.as_str());
            msg.append("': invalid digit found in string");
            Err(MpError::Protocol(msg))
        },
    }
}

/// Reads a text of hexadecimal digits as a UTF-8 string.
pub fn parse_hex_string(s: &str) -> (r: Result<String, MpError>)
    ensures
        error::outcome(r) == hex_string(s@),
{
    match parse_hex_bytes(s) {
        Err(e) => Err(e),
        Ok(bytes) => match string_from_utf8(bytes) {
            Ok(text) => Ok(text),
            Err(reason) => {
                let mut msg: String = "invalid UTF-8 filename from device: ".to_owned();
                msg.append(reason.as_str());
                Err(MpError::Protocol(msg))
            },
        },
    }
}

// ---------------------------------------------------------------------------
// Laws
// ---------------------------------------------------------------------------

proof fn lemma_hex_digit(v: int)
    requires
        0 <= v < 16,
    ensures
        hex_digit_value(hex_digit(v)) == Some(v),
        !text::white(hex_digit(v)),
        hex_digit(v) != '+',
        '\0' <= hex_digit(v) <= '\u{7f}',
{
}

/// The digits of bytes are ASCII, hold no white space, and read back.
pub proof fn lemma_hex_text(data: Seq<u8>)
    ensures
        hex_text(data).len() == 2 * data.len(),
        hex_value(hex_text(data)) == Some(data),
        forall|i: int|
            0 <= i < hex_text(data).len() ==> !text::white(#[trigger] hex_text(data)[i])
                && hex_text(data)[i] != '+' && '\0' <= hex_text(data)[i] <= '\u{7f}',
    decreases data.len(),
{
    if data.len() > 0 {
        let b = data[0];
        let rest = hex_text(data.skip(1));
        lemma_hex_text(data.skip(1));
        lemma_hex_digit(b as int / 16);
        lemma_hex_digit(b as int % 16);
        let t = hex_text(data);
        assert(t[0] == hex_digit(b as int / 16) && t[1] == hex_digit(b as int % 16));
        assert(t.skip(2) =~= rest);
        assert(hex_pair_value(t[0], t[1]) == Some(b));
        assert(seq![b] + data.skip(1) =~= data);
        assert forall|i: int| 0 <= i < t.len() implies !text::white(#[trigger] t[i])
            && '\0' <= t[i] <= '\u{7f}' by {
            if i >= 2 {
                assert(t[i] == rest[i - 2]);
            }
        }
    } else {
        assert(data =~= Seq::empty());
    }
}

/// Bytes written as hexadecimal read back as the same bytes.
pub proof fn law_hex_bytes_round_trip(data: Seq<u8>)
    ensures
        hex_bytes(hex_text(data)) == Ok::<Seq<u8>, ErrorView>(data),
{
    let t = hex_text(data);
    lemma_hex_text(data);
    assert(text::trimmed_start(t) == t);
    assert(text::trimmed_end(t) == t);
    assert(vstd::utf8::is_ascii_chars(t));
    vstd::utf8::is_ascii_chars_encode_utf8(t);
}

/// A string whose UTF-8 form is written as hexadecimal reads back as the same
/// string.
pub proof fn law_hex_string_round_trip(s: Seq<char>)
    ensures
        hex_string(hex_text(vstd::utf8::encode_utf8(s))) == Ok::<Seq<char>, ErrorView>(s),
{
    law_hex_bytes_round_trip(vstd::utf8::encode_utf8(s));
    vstd::utf8::encode_utf8_valid_utf8(s);
    vstd::utf8::encode_utf8_decode_utf8(s);
}

} // verus!
