//! What holds of texts: which characters are white space and what trimming leaves, how
//! numbers are written and read, which texts are hexadecimal, and how paths are ordered.

use vstd::prelude::*;

use crate::error::ErrorView;
use crate::files;
use crate::hex;
use crate::replies;
use crate::text;
use crate::transfer_laws;

verus! {

// ---------------------------------------------------------------------------
// White space
// ---------------------------------------------------------------------------

/// The characters that are white space.
pub proof fn law_white_space(c: char)
    ensures
        text::white(c) <==> {
            ||| c == ' '
            ||| '\t' <= c <= '\r'
            ||| c == '\u{85}'
            ||| c == '\u{a0}'
            ||| c == '\u{1680}'
            ||| '\u{2000}' <= c <= '\u{200a}'
            ||| c == '\u{2028}'
            ||| c == '\u{2029}'
            ||| c == '\u{202f}'
            ||| c == '\u{205f}'
            ||| c == '\u{3000}'
        },
{
}

/// Whether a text is nothing but white space.
pub open spec fn is_blank(s: Seq<char>) -> bool {
    forall|i: int| 0 <= i < s.len() ==> text::white(#[trigger] s[i])
}

/// Whether a text has no white space at its two ends.
pub open spec fn is_tight(s: Seq<char>) -> bool {
    s.len() > 0 ==> !text::white(s[0]) && !text::white(s.last())
}

proof fn lemma_trim_start(a: Seq<char>, s: Seq<char>)
    requires
        is_blank(a),
        s.len() > 0 ==> !text::white(s[0]),
    ensures
        text::trimmed_start(a + s) == s,
    decreases a.len(),
{
    if a.len() == 0 {
        assert(a + s =~= s);
    } else {
        let b = a.skip(1);
        assert(is_blank(b)) by {
            assert forall|i: int| 0 <= i < b.len() implies text::white(#[trigger] b[i]) by {
                assert(b[i] == a[i + 1]);
            }
        }
        lemma_trim_start(b, s);
        assert((a + s)[0] == a[0]);
        assert((a + s).skip(1) =~= b + s);
    }
}

proof fn lemma_trim_end(s: Seq<char>, z: Seq<char>)
    requires
        is_blank(z),
        s.len() > 0 ==> !text::white(s.last()),
    ensures
        text::trimmed_end(s + z) == s,
    decreases z.len(),
{
    if z.len() == 0 {
        assert(s + z =~= s);
    } else {
        let y = z.drop_last();
        assert(is_blank(y)) by {
            assert forall|i: int| 0 <= i < y.len() implies text::white(#[trigger] y[i]) by {
                assert(y[i] == z[i]);
            }
        }
        lemma_trim_end(s, y);
        assert((s + z).last() == z[z.len() - 1]);
        assert((s + z).drop_last() =~= s + y);
    }
}

/// Trimming takes the white space away that stands around a text, all of it and nothing
/// else.
pub proof fn law_trimming_leaves_the_text(a: Seq<char>, s: Seq<char>, z: Seq<char>)
    requires
        is_blank(a),
        is_tight(s),
        is_blank(z),
    ensures
        text::trimmed(a + s + z) == s,
{
    if s.len() > 0 {
        assert((s + z)[0] == s[0]);
        assert(a + s + z =~= a + (s + z));
        lemma_trim_start(a, s + z);
        lemma_trim_end(s, z);
    } else {
        let t = a + s + z;
        assert(is_blank(t)) by {
            assert forall|i: int| 0 <= i < t.len() implies text::white(#[trigger] t[i]) by {
                if i < a.len() {
                    assert(t[i] == a[i]);
                } else {
                    assert(t[i] == z[i - a.len()]);
                }
            }
        }
        let none = Seq::<char>::empty();
        lemma_trim_start(t, none);
        assert(t + none =~= t);
        assert(s =~= none);
    }
}

proof fn lemma_blank_start(s: Seq<char>)
    requires
        text::trimmed_start(s).len() == 0,
    ensures
        is_blank(s),
    decreases s.len(),
{
    if s.len() > 0 {
        lemma_blank_start(s.skip(1));
        assert forall|i: int| 0 <= i < s.len() implies text::white(#[trigger] s[i]) by {
            if i > 0 {
                assert(s[i] == s.skip(1)[i - 1]);
            }
        }
    }
}

proof fn lemma_blank_end(s: Seq<char>)
    requires
        text::trimmed_end(s).len() == 0,
    ensures
        is_blank(s),
    decreases s.len(),
{
    if s.len() > 0 {
        let t = s.drop_last();
        lemma_blank_end(t);
        assert forall|i: int| 0 <= i < s.len() implies text::white(#[trigger] s[i]) by {
            if i < t.len() {
                assert(s[i] == t[i]);
            }
        }
    }
}

/// Where trimming leaves nothing there is nothing but white space.
pub proof fn lemma_blank(s: Seq<char>)
    requires
        text::trimmed(s).len() == 0,
    ensures
        is_blank(s),
{
    let t = text::trimmed_start(s);
    lemma_blank_end(t);
    if t.len() > 0 {
        assert(text::white(t[0]));
        lemma_start_is_tight(s);
    } else {
        lemma_blank_start(s);
    }
}

proof fn lemma_start_is_tight(s: Seq<char>)
    ensures
        text::trimmed_start(s).len() > 0 ==> !text::white(text::trimmed_start(s)[0]),
    decreases s.len(),
{
    if s.len() > 0 && text::white(s[0]) {
        lemma_start_is_tight(s.skip(1));
    }
}

/// Trimming a character takes all of them away at the end, and nothing else.
pub proof fn law_trimming_a_character(s: Seq<char>, c: char, n: nat)
    requires
        s.len() > 0 ==> s.last() != c,
    ensures
        text::trimmed_end_of(s + Seq::new(n, |i: int| c), c) == s,
    decreases n,
{
    let z = Seq::new(n, |i: int| c);
    if n == 0 {
        assert(s + z =~= s);
    } else {
        let y = Seq::new((n - 1) as nat, |i: int| c);
        law_trimming_a_character(s, c, (n - 1) as nat);
        assert((s + z).last() == c);
        assert((s + z).drop_last() =~= s + y);
    }
}

/// Line ends in a row.
pub open spec fn line_ends(n: nat) -> Seq<char>
    decreases n,
{
    if n == 0 {
        Seq::empty()
    } else {
        line_ends((n - 1) as nat) + "\r\n"@
    }
}

/// Trimming line ends takes all of them away at the end, and nothing else.
pub proof fn law_trimming_line_ends(s: Seq<char>, n: nat)
    requires
        s.len() >= 2 ==> !(s[s.len() - 2] == '\r' && s[s.len() - 1] == '\n'),
    ensures
        text::trimmed_end_crlf(s + line_ends(n)) == s,
    decreases n,
{
    if n == 0 {
        assert(s + line_ends(n) =~= s);
    } else {
        reveal_strlit("\r\n");
        let before = s + line_ends((n - 1) as nat);
        let all = s + line_ends(n);
        law_trimming_line_ends(s, (n - 1) as nat);
        assert(all =~= before + "\r\n"@);
        assert(all.take(all.len() - 2) =~= before);
    }
}

// ---------------------------------------------------------------------------
// Lines
// ---------------------------------------------------------------------------

/// Lines are what stands between the line ends. Both `"\n"` and `"\r\n"` end a line, an
/// empty line counts, and what follows the last line end is a line too where it is not
/// empty.
pub proof fn law_lines_stand_between_line_ends(line: Seq<char>, rest: Seq<char>)
    requires
        !line.contains('\n'),
    ensures
        text::lines(line + "\r\n"@ + rest) == seq![line] + text::lines(rest),
        (line.len() > 0 ==> line.last() != '\r') ==> text::lines(line + "\n"@ + rest) == seq![line]
            + text::lines(rest),
        line.len() > 0 ==> text::lines(line) == seq![line],
        text::lines(Seq::empty()).len() == 0,
{
    transfer_laws::lemma_first_printed_line(line, rest);
    if line.len() > 0 ==> line.last() != '\r' {
        text::lemma_first_line(line, rest);
    }
    text::lemma_position(line, '\n');
}

// ---------------------------------------------------------------------------
// Numbers
// ---------------------------------------------------------------------------

/// The character for a digit.
pub open spec fn digit(d: nat) -> char {
    "0123456789"@[d as int]
}

proof fn lemma_digit(d: nat)
    requires
        d < 10,
    ensures
        digit(d) == text::digit_char(d),
        text::digit_value(digit(d)) == Some(d),
{
    reveal_strlit("0123456789");
}

/// A number is written with the digits of the number without its last digit, and then
/// the last digit; a number below ten as a digit. So there is no leading zero.
pub proof fn law_decimal_digits(n: nat, d: nat)
    requires
        d < 10,
    ensures
        text::decimal(d) == seq![digit(d)],
        n > 0 ==> text::decimal(10 * n + d) == text::decimal(n).push(digit(d)),
        n > 0 ==> text::decimal(n)[0] != '0',
    decreases n,
{
    lemma_digit(d);
    if n > 0 {
        assert((10 * n + d) / 10 == n);
        assert((10 * n + d) % 10 == d);
        if n >= 10 {
            law_decimal_digits(n / 10, n % 10);
            assert(10 * (n / 10) + n % 10 == n);
            assert(text::decimal(n)[0] == text::decimal(n / 10)[0]);
        } else {
            lemma_digit(n);
            reveal_strlit("0123456789");
        }
    }
}

/// Whether a text consists of decimal digits.
pub open spec fn is_digits(s: Seq<char>) -> bool {
    forall|i: int| 0 <= i < s.len() ==> '0' <= #[trigger] s[i] <= '9'
}

proof fn lemma_digits_value(s: Seq<char>)
    ensures
        text::digits_value(s) is Some <==> is_digits(s),
    decreases s.len(),
{
    if s.len() > 0 {
        let t = s.drop_last();
        lemma_digits_value(t);
        if is_digits(s) {
            assert(is_digits(t)) by {
                assert forall|i: int| 0 <= i < t.len() implies '0' <= #[trigger] t[i] <= '9' by {
                    assert(t[i] == s[i]);
                }
            }
            assert('0' <= s[s.len() - 1] <= '9');
        }
        if is_digits(t) && '0' <= s.last() <= '9' {
            assert forall|i: int| 0 <= i < s.len() implies '0' <= #[trigger] s[i] <= '9' by {
                if i < t.len() {
                    assert(t[i] == s[i]);
                }
            }
        }
    }
}

/// A number is read from one or more digits. Each digit counts ten times as much as the
/// one behind it, a sign `+` may stand before them, and a value above the greatest one is
/// refused, as is any other text.
pub proof fn law_numbers_are_read_from_digits(s: Seq<char>, d: nat, max: nat)
    requires
        d < 10,
    ensures
        text::unsigned_value(seq![digit(d)], max) == (if d <= max {
            Some(d)
        } else {
            None
        }),
        s.len() > 0 && is_digits(s) ==> text::unsigned_value(s.push(digit(d)), max) == (
        match text::digits_value(s) {
            Some(v) => if 10 * v + d <= max {
                Some(10 * v + d)
            } else {
                None
            },
            None => None,
        }),
        is_digits(s) ==> text::unsigned_value(seq!['+'] + s, max) == text::unsigned_value(s, max),
        s.len() == 0 ==> text::unsigned_value(s, max) is None,
        s.len() > 0 && s[0] != '+' && !is_digits(s) ==> text::unsigned_value(s, max) is None,
        s.len() > 0 && !is_digits(s.skip(1)) ==> text::unsigned_value(s, max) is None,
{
    reveal_strlit("0123456789");
    lemma_digit(d);
    lemma_digits_value(s);
    lemma_digits_value(s.skip(1));
    let one = seq![digit(d)];
    assert(one.drop_last().len() == 0);
    reveal_with_fuel(text::digits_value, 2);
    assert(s.push(digit(d)).drop_last() =~= s);
    if s.len() > 0 {
        assert(s.push(digit(d))[0] == s[0]);
    }
    assert((seq!['+'] + s).skip(1) =~= s);
    assert((seq!['+'] + s)[0] == '+');
    if s.len() > 0 && is_digits(s) {
        assert('0' <= s[0] <= '9');
    }
    if s.len() > 0 && !is_digits(s.skip(1)) {
        if is_digits(s) {
            assert forall|i: int| 0 <= i < s.skip(1).len() implies '0' <= #[trigger] s.skip(1)[i]
                <= '9' by {
                assert(s.skip(1)[i] == s[i + 1]);
            }
        }
    }
}

/// A number of 64 or 32 bits is read where its value fits.
pub proof fn law_number_sizes(n: nat)
    ensures
        replies::u64_value(text::decimal(n)) == (if n < 0x1_0000_0000_0000_0000 {
            Some(n as u64)
        } else {
            None
        }),
        replies::u32_value(text::decimal(n)) == (if n < 0x1_0000_0000 {
            Some(n as u32)
        } else {
            None
        }),
{
    text::lemma_decimal_digits(n);
}

// ---------------------------------------------------------------------------
// Hexadecimal text
// ---------------------------------------------------------------------------

/// The lower-case digit for a value.
pub open spec fn hexdigit(v: int) -> char {
    "0123456789abcdef"@[v]
}

/// Whether a character is a digit for a value.
pub open spec fn is_digit_for(c: char, v: int) -> bool {
    c == hexdigit(v) || c == "0123456789ABCDEF"@[v]
}

/// Digits of either case have their value, and no other character has one.
pub proof fn law_hex_digits(c: char, v: int)
    ensures
        0 <= v < 16 ==> (hex::hex_digit_value(c) == Some(v) <==> is_digit_for(c, v)),
        hex::hex_digit_value(c) matches Some(x) ==> 0 <= x < 16,
{
    reveal_strlit("0123456789abcdef");
    reveal_strlit("0123456789ABCDEF");
}

/// Whether a pair of characters is a byte: two digits, or a sign and a digit.
pub open spec fn is_pair(a: char, b: char) -> bool {
    (hex::hex_digit_value(a) is Some || a == '+') && hex::hex_digit_value(b) is Some
}

/// Whether the pair with the number `i` is a byte.
pub open spec fn is_pair_at(s: Seq<char>, i: int) -> bool {
    is_pair(s[2 * i], s[2 * i + 1])
}

/// Whether a text consists of pairs that are bytes.
pub open spec fn is_pairs(s: Seq<char>) -> bool {
    s.len() % 2 == 0 && forall|i: int| 0 <= i < s.len() / 2 ==> #[trigger] is_pair_at(s, i)
}

proof fn lemma_pairs(s: Seq<char>)
    ensures
        hex::hex_value(s) is Some <==> is_pairs(s),
        hex::hex_value(s) matches Some(d) ==> d.len() == s.len() / 2 && forall|i: int|
            0 <= i < d.len() ==> hex::hex_pair_value(s[2 * i], s[2 * i + 1]) == Some(
                #[trigger] d[i],
            ),
    decreases s.len(),
{
    if s.len() >= 2 {
        let t = s.skip(2);
        lemma_pairs(t);
        assert forall|i: int| 0 <= i < t.len() / 2 implies #[trigger] is_pair_at(t, i)
            == is_pair_at(s, i + 1) by {
            assert(t[2 * i] == s[2 * (i + 1)]);
            assert(t[2 * i + 1] == s[2 * (i + 1) + 1]);
        }
        if is_pairs(s) {
            assert(is_pair_at(s, 0));
            assert forall|i: int| 0 <= i < t.len() / 2 implies #[trigger] is_pair_at(t, i) by {
                assert(is_pair_at(s, i + 1));
            }
        }
        if is_pairs(t) && is_pair(s[0], s[1]) {
            assert forall|i: int| 0 <= i < s.len() / 2 implies #[trigger] is_pair_at(s, i) by {
                if i > 0 {
                    assert(is_pair_at(t, i - 1));
                }
            }
        }
        if hex::hex_value(s) is Some {
            let d = hex::hex_value(s)->0;
            let r = hex::hex_value(t)->0;
            assert forall|i: int| 0 <= i < d.len() implies hex::hex_pair_value(
                s[2 * i],
                s[2 * i + 1],
            ) == Some(#[trigger] d[i]) by {
                if i > 0 {
                    assert(d[i] == r[i - 1]);
                    assert(t[2 * (i - 1)] == s[2 * i]);
                    assert(t[2 * (i - 1) + 1] == s[2 * i + 1]);
                }
            }
        }
    }
}

/// A text of ASCII characters without white space around it reads as hexadecimal where
/// it consists of pairs of digits, and each byte is sixteen times the first digit and the
/// second digit. Any other text is an error that tells the text.
pub proof fn law_hex_is_read_in_pairs(a: Seq<char>, s: Seq<char>, z: Seq<char>)
    requires
        is_blank(a),
        is_tight(s),
        is_blank(z),
        vstd::utf8::is_ascii_chars(s),
    ensures
        hex::hex_bytes(a + s + z) == hex::hex_bytes(s),
        match hex::hex_bytes(s) {
            Ok(data) => {
                &&& is_pairs(s)
                &&& data.len() == s.len() / 2
                &&& forall|i: int|
                    0 <= i < data.len() && s[2 * i] != '+' ==> #[trigger] data[i]
                        == 16 * hex::hex_digit_value(s[2 * i])->0 + hex::hex_digit_value(
                        s[2 * i + 1],
                    )->0
                &&& forall|i: int|
                    0 <= i < data.len() && s[2 * i] == '+' ==> #[trigger] data[i]
                        == hex::hex_digit_value(s[2 * i + 1])->0
            },
            Err(e) => !is_pairs(s) && e == ErrorView::Protocol(
                if s.len() % 2 != 0 {
                    "invalid hex byte string: "@ + s
                } else {
                    "invalid hex byte string '"@ + s + "': invalid digit found in string"@
                },
            ),
        },
{
    let none = Seq::<char>::empty();
    law_trimming_leaves_the_text(a, s, z);
    law_trimming_leaves_the_text(none, s, none);
    assert(none + s + none =~= s);
    vstd::utf8::is_ascii_chars_encode_utf8(s);
    lemma_pairs(s);
    if hex::hex_bytes(s) is Ok {
        let data = hex::hex_bytes(s)->Ok_0;
        assert forall|i: int| 0 <= i < data.len() && s[2 * i] != '+' implies #[trigger] data[i]
            == 16 * hex::hex_digit_value(s[2 * i])->0 + hex::hex_digit_value(s[2 * i + 1])->0 by {
            assert(hex::hex_pair_value(s[2 * i], s[2 * i + 1]) == Some(data[i]));
            law_hex_digits(s[2 * i], 0);
            law_hex_digits(s[2 * i + 1], 0);
        }
        assert forall|i: int| 0 <= i < data.len() && s[2 * i] == '+' implies #[trigger] data[i]
            == hex::hex_digit_value(s[2 * i + 1])->0 by {
            assert(hex::hex_pair_value(s[2 * i], s[2 * i + 1]) == Some(data[i]));
            law_hex_digits(s[2 * i + 1], 0);
        }
    }
}

/// A name that is not UTF-8 is an error.
pub proof fn law_names_are_utf8(s: Seq<char>)
    ensures
        hex::hex_string(s) is Ok <==> hex::hex_bytes(s) is Ok && vstd::utf8::valid_utf8(
            hex::hex_bytes(s)->Ok_0,
        ),
        hex::hex_string(s) matches Ok(name) ==> vstd::utf8::encode_utf8(name) == hex::hex_bytes(
            s,
        )->Ok_0,
        hex::hex_bytes(s) matches Err(e) ==> hex::hex_string(s) == Err::<Seq<char>, ErrorView>(e),
{
    if hex::hex_string(s) is Ok {
        vstd::utf8::decode_utf8_encode_utf8(hex::hex_bytes(s)->Ok_0);
    }
}

// ---------------------------------------------------------------------------
// The order of paths
// ---------------------------------------------------------------------------

/// Whether a text comes before another: where they first differ it has the lesser
/// character, or it ends there.
pub open spec fn comes_before(a: Seq<char>, b: Seq<char>) -> bool {
    exists|k: int| #[trigger] differ_first_at(a, b, k) && (k == a.len() || a[k] < b[k])
}

/// Whether two texts first differ at a place, where the second one goes on.
pub open spec fn differ_first_at(a: Seq<char>, b: Seq<char>, k: int) -> bool {
    0 <= k <= a.len() && k < b.len() && a.take(k) == b.take(k)
}

/// Paths are ordered by their characters.
pub proof fn law_paths_are_ordered_by_characters(a: Seq<char>, b: Seq<char>)
    ensures
        files::precedes(a, b) <==> comes_before(a, b),
    decreases a.len(),
{
    if b.len() == 0 {
    } else if a.len() == 0 {
        assert(a.take(0) =~= b.take(0));
        assert(differ_first_at(a, b, 0));
    } else if a[0] != b[0] {
        if a[0] < b[0] {
            assert(a.take(0) =~= b.take(0));
            assert(differ_first_at(a, b, 0));
        }
        if comes_before(a, b) {
            let k = choose|k: int| #[trigger]
                differ_first_at(a, b, k) && (k == a.len() || a[k] < b[k]);
            if k > 0 {
                assert(a.take(k)[0] == b.take(k)[0]);
            }
        }
    } else {
        let x = a.skip(1);
        let y = b.skip(1);
        law_paths_are_ordered_by_characters(x, y);
        if comes_before(x, y) {
            let k = choose|k: int| #[trigger]
                differ_first_at(x, y, k) && (k == x.len() || x[k] < y[k]);
            assert(a.take(k + 1) =~= b.take(k + 1)) by {
                assert forall|i: int| 0 <= i < k + 1 implies a[i] == b[i] by {
                    if i > 0 {
                        assert(x.take(k)[i - 1] == y.take(k)[i - 1]);
                    }
                }
            }
            assert(differ_first_at(a, b, k + 1));
        }
        if comes_before(a, b) {
            let k = choose|k: int| #[trigger]
                differ_first_at(a, b, k) && (k == a.len() || a[k] < b[k]);
            assert(k > 0);
            assert(x.take(k - 1) =~= y.take(k - 1)) by {
                assert forall|i: int| 0 <= i < k - 1 implies x[i] == y[i] by {
                    assert(a.take(k)[i + 1] == b.take(k)[i + 1]);
                }
            }
            assert(differ_first_at(x, y, k - 1));
        }
    }
}

} // verus!
