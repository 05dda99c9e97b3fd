//! What typing in the interactive REPL does: text reaches the device as it was typed,
//! control keys as their control characters, and only a few keys leave.

use vstd::prelude::*;

use crate::connection;
use crate::connection::Exchange;
use crate::error::ErrorView;
use crate::session::SessionView;
use crate::session_laws;
use crate::terminal;
use crate::terminal::Key;

verus! {

/// The key for a character.
pub open spec fn plain_key(c: char) -> Key {
    Key::Char { c, control: false }
}

/// The keys for a text.
pub open spec fn keys_for(text: Seq<char>) -> Seq<Key> {
    Seq::new(text.len(), |i: int| plain_key(text[i]))
}

/// What several keys send, one after the other.
pub open spec fn all_bytes(keys: Seq<Key>) -> Seq<u8>
    decreases keys.len(),
{
    if keys.len() == 0 {
        Seq::empty()
    } else {
        terminal::key_bytes(keys[0]) + all_bytes(keys.skip(1))
    }
}

/// The line after several keys.
pub open spec fn all_typed(line: Seq<char>, keys: Seq<Key>) -> Seq<char>
    decreases keys.len(),
{
    if keys.len() == 0 {
        line
    } else {
        all_typed(terminal::typed(line, keys[0]), keys.skip(1))
    }
}

/// Whether all characters are ASCII.
pub open spec fn is_ascii_text(text: Seq<char>) -> bool {
    forall|i: int| 0 <= i < text.len() ==> (#[trigger] text[i]) as u32 <= 0x7f
}

/// A plain ASCII character sends one byte, and its value is that of the character: the
/// UTF-8 form of the character.
pub proof fn law_a_character_sends_itself(c: char)
    requires
        c as u32 <= 0x7f,
    ensures
        terminal::key_bytes(plain_key(c)).len() == 1,
        terminal::key_bytes(plain_key(c))[0] as u32 == c as u32,
        terminal::key_bytes(plain_key(c)) == vstd::utf8::encode_utf8(seq![c]),
{
    let u = c as u32;
    let s = seq![c];
    assert(s.drop_first().len() == 0);
    assert(vstd::utf8::encode_utf8(s.drop_first()) == Seq::<u8>::empty());
    assert(s[0] == c);
    let one = vstd::utf8::leading_byte_width_1(u);
    assert(vstd::utf8::encode_scalar(u) =~= seq![one]);
    assert((u & 0x7f) as u8 == u as u8 && (u % 256) as u8 == u as u8) by (bit_vector)
        requires
            u <= 0x7f,
    ;
    assert(vstd::utf8::encode_utf8(s) =~= seq![one]);
    assert(terminal::key_bytes(plain_key(c)) =~= seq![u as u8]);
    assert(one == u as u8);
}

/// Any other character sends one byte too: what is left of its value when it is divided
/// by two hundred and fifty-six.
pub proof fn law_any_character_sends_a_byte(c: char)
    ensures
        terminal::key_bytes(plain_key(c)).len() == 1,
        exists|k: int| #![trigger 256 * k]
            k >= 0 && c as u32 == 256 * k + terminal::key_bytes(plain_key(c))[0],
{
    let u = c as u32;
    let k = (u / 256) as int;
    assert(u == 256 * k + u % 256);
    assert((u % 256) as u8 == u % 256);
    assert(terminal::key_bytes(plain_key(c))[0] == (u % 256) as u8);
}

/// Typing ASCII text sends its UTF-8 form.
pub proof fn law_typed_text_arrives(text: Seq<char>)
    requires
        is_ascii_text(text),
    ensures
        all_bytes(keys_for(text)) == vstd::utf8::encode_utf8(text),
    decreases text.len(),
{
    let keys = keys_for(text);
    if text.len() > 0 {
        let rest = text.skip(1);
        assert(keys.skip(1) =~= keys_for(rest));
        assert forall|i: int| 0 <= i < rest.len() implies (#[trigger] rest[i]) as u32 <= 0x7f by {
            assert(rest[i] == text[i + 1]);
        }
        law_typed_text_arrives(rest);
        let c = text[0];
        law_a_character_sends_itself(c);
        assert(text.drop_first() =~= rest);
        let s = seq![c];
        assert(s.drop_first().len() == 0);
        assert(vstd::utf8::encode_utf8(s.drop_first()) == Seq::<u8>::empty());
        assert(vstd::utf8::encode_utf8(s) =~= vstd::utf8::encode_scalar(c as u32));
    }
}

/// A letter with the control key sends its place in the alphabet, in either case; an
/// ASCII character that is no letter sends nothing with it.
pub proof fn law_control_keys_send_control_characters(c: char)
    requires
        c as u32 <= 0x7f,
    ensures
        ({
            let sent = terminal::key_bytes(Key::Char { c, control: true });
            if 'a' <= c <= 'z' {
                sent == seq![(c as u32 - 96) as u8]
            } else if 'A' <= c <= 'Z' {
                sent == seq![(c as u32 - 64) as u8]
            } else {
                sent.len() == 0
            }
        }),
{
    let u = c as u32;
    if 'A' <= c <= 'Z' {
        assert((u + 32) as char as u32 == u + 32);
    }
}

/// The other keys: Enter sends a carriage return, Backspace, Tab and Escape their
/// control characters, and the keys that move the cursor the sequences of a VT100: an
/// escape, `[` and a letter, or `[`, a digit and `~`.
pub proof fn law_special_keys()
    ensures
        terminal::key_bytes(Key::Enter) == seq!['\r' as u8],
        terminal::key_bytes(Key::Backspace) == seq![8u8],
        terminal::key_bytes(Key::Tab) == seq!['\t' as u8],
        terminal::key_bytes(Key::Esc) == seq![27u8],
        terminal::key_bytes(Key::Up) == seq![27u8, '[' as u8, 'A' as u8],
        terminal::key_bytes(Key::Down) == seq![27u8, '[' as u8, 'B' as u8],
        terminal::key_bytes(Key::Right) == seq![27u8, '[' as u8, 'C' as u8],
        terminal::key_bytes(Key::Left) == seq![27u8, '[' as u8, 'D' as u8],
        terminal::key_bytes(Key::Home) == seq![27u8, '[' as u8, 'H' as u8],
        terminal::key_bytes(Key::End) == seq![27u8, '[' as u8, 'F' as u8],
        terminal::key_bytes(Key::Delete) == seq![27u8, '[' as u8, '3' as u8, '~' as u8],
        terminal::key_bytes(Key::PageUp) == seq![27u8, '[' as u8, '5' as u8, '~' as u8],
        terminal::key_bytes(Key::PageDown) == seq![27u8, '[' as u8, '6' as u8, '~' as u8],
        terminal::key_bytes(Key::Other).len() == 0,
{
}

/// The line is what was typed since the last Enter, and Backspace takes the last
/// character back.
pub proof fn law_the_line_is_what_was_typed(text: Seq<char>, line: Seq<char>, c: char)
    ensures
        all_typed(line, keys_for(text)) == line + text,
        terminal::typed(terminal::typed(line, plain_key(c)), Key::Backspace) == line,
        terminal::typed(line, Key::Enter).len() == 0,
        terminal::typed(line, Key::Char { c, control: true }) == line,
    decreases text.len(),
{
    assert(line.push(c).drop_last() =~= line);
    let keys = keys_for(text);
    if text.len() == 0 {
        assert(line + text =~= line);
    } else {
        assert(keys.skip(1) =~= keys_for(text.skip(1)));
        law_the_line_is_what_was_typed(text.skip(1), line.push(text[0]), c);
        assert(line.push(text[0]) + text.skip(1) =~= line + text);
    }
}

/// Whoever types a text on an empty line and presses Enter leaves the REPL exactly
/// when the text is `exit()`.
pub proof fn law_exit_leaves(text: Seq<char>)
    ensures
        terminal::leaves(all_typed(Seq::empty(), keys_for(text)), Key::Enter) <==> text
            == "exit()"@,
{
    law_the_line_is_what_was_typed(text, Seq::empty(), 'x');
    assert(Seq::<char>::empty() + text =~= text);
}

/// CTRL-C and CTRL-D leave the REPL wherever the line is, and besides Enter no other
/// key does.
pub proof fn law_what_leaves(line: Seq<char>, key: Key)
    requires
        !(key is Enter),
    ensures
        terminal::leaves(line, key) <==> key == (Key::Char { c: 'c', control: true }) || key == (
        Key::Char { c: 'd', control: true }),
{
}

/// A key that leaves sends nothing. Any other one sends its bytes and nothing else,
/// and the REPL goes on; a failed write is the error.
pub proof fn law_keys_are_sent(
    pre: SessionView,
    line: Seq<char>,
    key: Key,
    post: SessionView,
    r: Result<bool, ErrorView>,
)
    requires
        terminal::handles(pre, line, key, post, r),
    ensures
        session_laws::continues(pre, post),
        r matches Ok(leave) ==> {
            &&& leave == terminal::leaves(line, key)
            &&& connection::written(session_laws::since(pre, post)) == if leave {
                Seq::<u8>::empty()
            } else {
                terminal::key_bytes(key)
            }
        },
        r matches Err(e) ==> post.record == pre.record.push(
            Exchange::Write { data: terminal::key_bytes(key), status: Err(e) },
        ),
{
    let t = session_laws::since(pre, post);
    if post == pre {
        assert(t.len() == 0);
        assert(terminal::leaves(line, key) || terminal::key_bytes(key) =~= Seq::<u8>::empty());
    } else {
        assert(post.record.drop_last() =~= pre.record);
        assert(t =~= seq![post.record.last()]);
        assert(t.drop_last().len() == 0);
        assert(connection::written(t.drop_last()) == Seq::<u8>::empty());
        let w = terminal::key_bytes(key);
        assert(Seq::<u8>::empty() + w =~= w);
    }
}

/// What the device has sent is shown as it is, and where it cannot be read nothing is.
pub proof fn law_output_is_shown(data: Seq<u8>, e: ErrorView)
    ensures
        terminal::shown(Ok(data)) == data,
        terminal::shown(Err(e)).len() == 0,
{
}

} // verus!
