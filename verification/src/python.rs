//! Python literals.

use vstd::prelude::*;

use crate::hex;
use crate::hex::push_hex_byte;
use crate::text::to_chars;

verus! {

/// The control characters of Unicode.
pub open spec fn control(c: char) -> bool {
    let u = c as u32;
    u <= 0x1f || 0x7f <= u <= 0x9f
}

/// How one character stands inside a string literal.
pub open spec fn str_escape(c: char) -> Seq<char> {
    if c == '\\' {
        "\\\\"@
    } else if c == '\'' {
        "\\'"@
    } else if c == '\n' {
        "\\n"@
    } else if c == '\r' {
        "\\r"@
    } else if c == '\t' {
        "\\t"@
    } else if control(c) {
        "\\x"@ + hex::hex_byte(c as u8)
    } else {
        seq![c]
    }
}

/// How text stands inside a string literal.
pub open spec fn str_body(s: Seq<char>) -> Seq<char>
    decreases s.len(),
{
    if s.len() == 0 {
        Seq::empty()
    } else {
        str_escape(s[0]) + str_body(s.skip(1))
    }
}

/// The string literal for a text.
pub open spec fn str_literal(s: Seq<char>) -> Seq<char> {
    seq!['\''] + str_body(s) + seq!['\'']
}

/// How one byte stands inside a bytes literal.
pub open spec fn byte_escape(b: u8) -> Seq<char> {
    if b == 0x0a {
        "\\n"@
    } else if b == 0x0d {
        "\\r"@
    } else if b == 0x09 {
        "\\t"@
    } else if b == 0x5c {
        "\\\\"@
    } else if b == 0x27 {
        "\\'"@
    } else if 0x20 <= b <= 0x7e {
        seq![b as char]
    } else {
        "\\x"@ + hex::hex_byte(b)
    }
}

/// How bytes stand inside a bytes literal.
pub open spec fn bytes_body(data: Seq<u8>) -> Seq<char>
    decreases data.len(),
{
    if data.len() == 0 {
        Seq::empty()
    } else {
        byte_escape(data[0]) + bytes_body(data.skip(1))
    }
}

/// The bytes literal for bytes.
pub open spec fn bytes_literal(data: Seq<u8>) -> Seq<char> {
    "b'"@ + bytes_body(data) + seq!['\'']
}

/// Writes a text as a Python string literal.
pub fn py_str_repr(s: &str) -> (r: String)
    ensures
        r@ == str_literal(s@),
{
    let chars: Vec<char> = to_chars(s);
    let mut out: String = String::new();
    out.push('\'');
    let mut i: usize = 0;
    assert(s@.skip(0) =~= s@);
    assert(out@ =~= seq!['\'']);
    while i < chars.len()
        invariant
            chars@ == s@,
            i <= chars.len(),
            out@ + str_body(s@.skip(i as int)) == seq!['\''] + str_body(s@),
        decreases chars.len() - i,
    {
        let ghost before = out@;
        let c: char = chars[i];
        let u: u32 = c as u32;
        if c == '\\' {
            out.append("\\\\");
        } else if c == '\'' {
            out.append("\\'");
        } else if c == '\n' {
            out.append("\\n");
        } else if c == '\r' {
            out.append("\\r");
        } else if c == '\t' {
            out.append("\\t");
        } else if u <= 0x1f || (0x7f <= u && u <= 0x9f) {
            out.append("\\x");
            push_hex_byte(&mut out, c as u8);
        } else {
            out.push(c);
        }
        proof {
            assert(out@ =~= before + str_escape(c));
            assert(s@.skip(i as int).skip(1) =~= s@.skip(i + 1));
            assert(out@ + str_body(s@.skip(i + 1)) =~= before + str_body(s@.skip(i as int)));
        }
        i = i + 1;
    }
    proof {
        assert(out@ + str_body(s@.skip(i as int)) =~= out@);
    }
    out.push('\'');
    assert(out@ =~= str_literal(s@));
    out
}

/// Writes bytes as a Python bytes literal.
pub fn py_bytes_repr(data: &[u8]) -> (r: String)
    ensures
        r@ == bytes_literal(data@),
{
    let mut out: String = String::new();
    out.append("b'");
    let mut i: usize = 0;
    assert(data@.skip(0) =~= data@);
    assert(out@ =~= "b'"@);
    while i < data.len()
        invariant
            i <= data.len(),
            out@ + bytes_body(data@.skip(i as int)) == "b'"@ + bytes_body(data@),
        decreases data.len() - i,
    {
        let ghost before = out@;
        let b: u8 = data[i];
        if b == 0x0a {
            out.append("\\n");
        } else if b == 0x0d {
            out.append("\\r");
        } else if b == 0x09 {
            out.append("\\t");
        } else if b == 0x5c {
            out.append("\\\\");
        } else if b == 0x27 {
            out.append("\\'");
        } else if 0x20 <= b && b <= 0x7e {
            out.push(b as char);
        } else {
            out.append("\\x");
            push_hex_byte(&mut out, b);
        }
        proof {
            assert(out@ =~= before + byte_escape(b));
            assert(data@.skip(i as int).skip(1) =~= data@.skip(i + 1));
            assert(out@ + bytes_body(data@.skip(i + 1)) =~= before + bytes_body(
                data@.skip(i as int),
            ));
        }
        i = i + 1;
    }
    proof {
        assert(out@ + bytes_body(data@.skip(i as int)) =~= out@);
    }
    out.push('\'');
    assert(out@ =~= bytes_literal(data@));
    out
}

// ---------------------------------------------------------------------------
// How Python reads the literals
// ---------------------------------------------------------------------------

/// The character at the start of the body of a single-quoted literal, and how
/// many characters it takes there. A line end, a quote and an escape that is not
/// listed here do not stand for a character.
pub open spec fn read_char(s: Seq<char>) -> Option<(char, int)> {
    if s.len() == 0 || s[0] == '\'' || s[0] == '\n' || s[0] == '\r' {
        None
    } else if s[0] != '\\' {
        Some((s[0], 1))
    } else if s.len() < 2 {
        None
    } else if s[1] == '\\' || s[1] == '\'' {
        Some((s[1], 2))
    } else if s[1] == 'n' {
        Some(('\n', 2))
    } else if s[1] == 'r' {
        Some(('\r', 2))
    } else if s[1] == 't' {
        Some(('\t', 2))
    } else if s[1] == 'x' && s.len() >= 4 {
        match (hex::hex_digit_value(s[2]), hex::hex_digit_value(s[3])) {
            (Some(hi), Some(lo)) => Some(((16 * hi + lo) as u8 as char, 4)),
            _ => None,
        }
    } else {
        None
    }
}

/// The text of a literal whose opening quote has been read: characters up to the
/// closing quote, which is the last character.
pub open spec fn read_body(s: Seq<char>) -> Option<Seq<char>>
    decreases s.len(),
{
    if s.len() == 1 && s[0] == '\'' {
        Some(Seq::empty())
    } else {
        match read_char(s) {
            Some((c, n)) => match read_body(s.skip(n)) {
                Some(rest) => Some(seq![c] + rest),
                None => None,
            },
            None => None,
        }
    }
}

/// The text that a string literal stands for.
pub open spec fn read_str(s: Seq<char>) -> Option<Seq<char>> {
    if s.len() > 0 && s[0] == '\'' {
        read_body(s.skip(1))
    } else {
        None
    }
}

/// The bytes that a bytes literal stands for: one byte for each character.
pub open spec fn read_bytes(s: Seq<char>) -> Option<Seq<u8>> {
    if s.len() > 1 && s[0] == 'b' && s[1] == '\'' {
        match read_body(s.skip(2)) {
            Some(t) => Some(Seq::new(t.len(), |i: int| t[i] as u8)),
            None => None,
        }
    } else {
        None
    }
}

proof fn lemma_read_escape(c: char, tail: Seq<char>)
    ensures
        read_char(str_escape(c) + tail) == Some((c, str_escape(c).len() as int)),
        str_escape(c).len() > 0,
        (str_escape(c) + tail).skip(str_escape(c).len() as int) == tail,
{
    reveal_strlit("\\\\");
    reveal_strlit("\\'");
    reveal_strlit("\\n");
    reveal_strlit("\\r");
    reveal_strlit("\\t");
    reveal_strlit("\\x");
    let e = str_escape(c);
    assert((e + tail).skip(e.len() as int) =~= tail);
    if c != '\\' && c != '\'' && c != '\n' && c != '\r' && c != '\t' && control(c) {
        let b = c as u8;
        assert(b as char == c);
        let hi = b as int / 16;
        let lo = b as int % 16;
        assert(hex::hex_digit_value(hex::hex_digit(hi)) == Some(hi));
        assert(hex::hex_digit_value(hex::hex_digit(lo)) == Some(lo));
        assert((e + tail)[2] == hex::hex_digit(hi));
        assert((e + tail)[3] == hex::hex_digit(lo));
        assert(16 * hi + lo == b);
    }
}

proof fn lemma_read_str_body(s: Seq<char>)
    ensures
        read_body(str_body(s) + seq!['\'']) == Some(s),
    decreases s.len(),
{
    let lit = str_body(s) + seq!['\''];
    if s.len() == 0 {
        assert(lit.len() == 1 && lit[0] == '\'');
        assert(s =~= Seq::empty());
    } else {
        let tail = str_body(s.skip(1)) + seq!['\''];
        assert(lit =~= str_escape(s[0]) + tail);
        lemma_read_escape(s[0], tail);
        lemma_read_str_body(s.skip(1));
        assert(seq![s[0]] + s.skip(1) =~= s);
    }
}

/// Python reads the literal written for a text as that text: nothing inside the
/// text ends the literal early, and nothing is lost.
pub proof fn law_str_literal_reads_back(s: Seq<char>)
    ensures
        read_str(str_literal(s)) == Some(s),
{
    lemma_read_str_body(s);
    assert(str_literal(s).skip(1) =~= str_body(s) + seq!['\'']);
}

proof fn lemma_read_byte_escape(b: u8, tail: Seq<char>)
    ensures
        read_char(byte_escape(b) + tail) == Some((b as char, byte_escape(b).len() as int)),
        byte_escape(b).len() > 0,
        (byte_escape(b) + tail).skip(byte_escape(b).len() as int) == tail,
{
    reveal_strlit("\\\\");
    reveal_strlit("\\'");
    reveal_strlit("\\n");
    reveal_strlit("\\r");
    reveal_strlit("\\t");
    reveal_strlit("\\x");
    let e = byte_escape(b);
    assert((e + tail).skip(e.len() as int) =~= tail);
    let hi = b as int / 16;
    let lo = b as int % 16;
    assert(hex::hex_digit_value(hex::hex_digit(hi)) == Some(hi));
    assert(hex::hex_digit_value(hex::hex_digit(lo)) == Some(lo));
    assert(16 * hi + lo == b);
    if !(0x20 <= b <= 0x7e) && b != 0x0a && b != 0x0d && b != 0x09 {
        assert((e + tail)[2] == hex::hex_digit(hi));
        assert((e + tail)[3] == hex::hex_digit(lo));
    }
}

proof fn lemma_read_bytes_body(data: Seq<u8>)
    ensures
        read_body(bytes_body(data) + seq!['\'']) == Some(
            Seq::new(data.len(), |i: int| data[i] as char),
        ),
    decreases data.len(),
{
    let lit = bytes_body(data) + seq!['\''];
    let text = Seq::new(data.len(), |i: int| data[i] as char);
    if data.len() == 0 {
        assert(lit.len() == 1 && lit[0] == '\'');
        assert(text =~= Seq::empty());
    } else {
        let tail = bytes_body(data.skip(1)) + seq!['\''];
        assert(lit =~= byte_escape(data[0]) + tail);
        lemma_read_byte_escape(data[0], tail);
        lemma_read_bytes_body(data.skip(1));
        let rest = Seq::new(data.skip(1).len(), |i: int| data.skip(1)[i] as char);
        assert(seq![data[0] as char] + rest =~= text);
    }
}

/// Python reads the literal written for bytes as those bytes.
pub proof fn law_bytes_literal_reads_back(data: Seq<u8>)
    ensures
        read_bytes(bytes_literal(data)) == Some(data),
{
    reveal_strlit("b'");
    lemma_read_bytes_body(data);
    let text = Seq::new(data.len(), |i: int| data[i] as char);
    assert(bytes_literal(data).skip(2) =~= bytes_body(data) + seq!['\'']);
    assert(Seq::new(text.len(), |i: int| text[i] as u8) =~= data);
}

/// Whether a character can be shown on a line and needs no escape.
pub open spec fn stands_for_itself(c: char) -> bool {
    !control(c) && c != '\\' && c != '\''
}

proof fn lemma_body_prints(s: Seq<char>)
    ensures
        forall|i: int| 0 <= i < str_body(s).len() ==> !control(#[trigger] str_body(s)[i]),
    decreases s.len(),
{
    if s.len() > 0 {
        let head = str_escape(s[0]);
        let tail = str_body(s.skip(1));
        lemma_body_prints(s.skip(1));
        reveal_strlit("\\\\");
        reveal_strlit("\\'");
        reveal_strlit("\\n");
        reveal_strlit("\\r");
        reveal_strlit("\\t");
        reveal_strlit("\\x");
        assert forall|i: int| 0 <= i < str_body(s).len() implies !control(
            #[trigger] str_body(s)[i],
        ) by {
            if i < head.len() {
                assert(str_body(s)[i] == head[i]);
            } else {
                assert(str_body(s)[i] == tail[i - head.len()]);
            }
        }
    }
}

/// A string literal stands on one line: no control character is in it.
pub proof fn law_literal_stands_on_one_line(s: Seq<char>)
    ensures
        forall|i: int| 0 <= i < str_literal(s).len() ==> (#[trigger] str_literal(s)[i]) as u32 >= 0x20
            && !(0x7f <= str_literal(s)[i] as u32 && str_literal(s)[i] as u32 <= 0x9f),
{
    lemma_body_prints(s);
    let body = str_body(s);
    let all = str_literal(s);
    assert forall|i: int| 0 <= i < all.len() implies (#[trigger] all[i]) as u32 >= 0x20 && !(0x7f
        <= all[i] as u32 && all[i] as u32 <= 0x9f) by {
        if 0 < i < all.len() - 1 {
            assert(all[i] == body[i - 1]);
        }
    }
}

/// A text that needs no escape stands in its literal as it is, between single quotes.
pub proof fn law_plain_text_is_quoted(s: Seq<char>)
    requires
        forall|i: int| 0 <= i < s.len() ==> stands_for_itself(#[trigger] s[i]),
    ensures
        str_literal(s) == seq!['\''] + s + seq!['\''],
    decreases s.len(),
{
    if s.len() == 0 {
        assert(str_body(s) =~= s);
    } else {
        let rest = s.skip(1);
        assert forall|i: int| 0 <= i < rest.len() implies stands_for_itself(
            #[trigger] rest[i],
        ) by {
            assert(rest[i] == s[i + 1]);
        }
        law_plain_text_is_quoted(rest);
        let quoted = seq!['\''] + rest + seq!['\''];
        assert(str_body(rest) =~= rest) by {
            assert(str_literal(rest).subrange(1, str_literal(rest).len() - 1) =~= str_body(rest));
            assert(quoted.subrange(1, quoted.len() - 1) =~= rest);
        }
        assert(stands_for_itself(s[0]));
        assert(str_body(s) =~= s);
    }
}

proof fn lemma_bytes_print(data: Seq<u8>)
    ensures
        forall|i: int|
            0 <= i < bytes_body(data).len() ==> ' ' <= #[trigger] bytes_body(data)[i] <= '~',
    decreases data.len(),
{
    if data.len() > 0 {
        let head = byte_escape(data[0]);
        let tail = bytes_body(data.skip(1));
        lemma_bytes_print(data.skip(1));
        reveal_strlit("\\\\");
        reveal_strlit("\\'");
        reveal_strlit("\\n");
        reveal_strlit("\\r");
        reveal_strlit("\\t");
        reveal_strlit("\\x");
        assert forall|i: int| 0 <= i < bytes_body(data).len() implies ' ' <= #[trigger] bytes_body(
            data,
        )[i] <= '~' by {
            if i < head.len() {
                assert(bytes_body(data)[i] == head[i]);
            } else {
                assert(bytes_body(data)[i] == tail[i - head.len()]);
            }
        }
    }
}

/// A bytes literal consists of printable ASCII characters, and a printable byte that is
/// neither a quote nor a backslash stands in it as it is.
pub proof fn law_bytes_literal_is_printable(data: Seq<u8>, b: u8)
    ensures
        forall|i: int|
            0 <= i < bytes_literal(data).len() ==> ' ' <= #[trigger] bytes_literal(data)[i] <= '~',
        0x20 <= b <= 0x7e && b != 0x27 && b != 0x5c ==> bytes_literal(seq![b]) == seq![
            'b',
            '\'',
            b as char,
            '\'',
        ],
{
    lemma_bytes_print(data);
    reveal_strlit("b'");
    let body = bytes_body(data);
    let all = bytes_literal(data);
    assert forall|i: int| 0 <= i < all.len() implies ' ' <= #[trigger] all[i] <= '~' by {
        if 2 <= i < all.len() - 1 {
            assert(all[i] == body[i - 2]);
        }
    }
    if 0x20 <= b <= 0x7e && b != 0x27 && b != 0x5c {
        assert(seq![b].skip(1).len() == 0);
        reveal_with_fuel(bytes_body, 2);
        assert(bytes_literal(seq![b]) =~= seq!['b', '\'', b as char, '\'']);
    }
}

} // verus!
