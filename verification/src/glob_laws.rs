//! What holds of the measures of a glob: how deep its alternatives are nested, and
//! whether it is a text that can be searched for.

use vstd::prelude::*;

use crate::globs;
use crate::globs::Place;

verus! {

// ---------------------------------------------------------------------------
// Nesting
// ---------------------------------------------------------------------------

/// A character `n` times.
pub open spec fn times(n: nat, c: char) -> Seq<char> {
    Seq::new(n, |i: int| c)
}

proof fn lemma_one_more(p: Seq<char>, c: char, escapes: bool)
    ensures
        globs::scanned(p.push(c), escapes) == globs::scan_on(
            globs::scanned(p, escapes),
            c,
            escapes,
        ),
{
    assert(p.push(c).drop_last() =~= p);
}

/// Whether a reader of a pattern is outside of classes and escapes at its end.
pub open spec fn ends_outside(p: Seq<char>, escapes: bool) -> bool {
    globs::scanned(p, escapes).place == Place::Outside
}

proof fn lemma_opened(p: Seq<char>, n: nat, escapes: bool)
    requires
        ends_outside(p, escapes),
    ensures
        ({
            let a = globs::scanned(p, escapes);
            let b = globs::scanned(p + times(n, '{'), escapes);
            &&& b.place == Place::Outside
            &&& b.depth == a.depth + n
            &&& b.deepest == (if a.depth + n > a.deepest {
                a.depth + n
            } else {
                a.deepest
            })
        }),
    decreases n,
{
    lemma_depth(p, escapes);
    if n == 0 {
        assert(p + times(n, '{') =~= p);
    } else {
        let q = p + times((n - 1) as nat, '{');
        lemma_opened(p, (n - 1) as nat, escapes);
        assert(p + times(n, '{') =~= q.push('{'));
        lemma_one_more(q, '{', escapes);
    }
}

proof fn lemma_depth(p: Seq<char>, escapes: bool)
    ensures
        globs::scanned(p, escapes).depth <= globs::scanned(p, escapes).deepest,
    decreases p.len(),
{
    if p.len() > 0 {
        lemma_depth(p.drop_last(), escapes);
    }
}

proof fn lemma_closed(p: Seq<char>, n: nat, escapes: bool)
    requires
        ends_outside(p, escapes),
        n <= globs::scanned(p, escapes).depth,
    ensures
        ({
            let a = globs::scanned(p, escapes);
            let b = globs::scanned(p + times(n, '}'), escapes);
            b.place == Place::Outside && b.depth == a.depth - n && b.deepest == a.deepest
        }),
    decreases n,
{
    if n == 0 {
        assert(p + times(n, '}') =~= p);
    } else {
        let q = p + times((n - 1) as nat, '}');
        lemma_closed(p, (n - 1) as nat, escapes);
        assert(p + times(n, '}') =~= q.push('}'));
        lemma_one_more(q, '}', escapes);
    }
}

/// Braces in braces are as deep as there are of them, and when they are closed again the
/// same number fits behind them without going deeper.
pub proof fn law_braces_are_counted(n: nat, k: nat)
    ensures
        globs::nested_at_most(times(n, '{') + times(n, '}'), k) <==> n <= k,
        globs::nested_at_most(
            times(n, '{') + times(n, '}') + times(n, '{') + times(n, '}'),
            k,
        ) <==> n <= k,
{
    lemma_braces(n, true);
    lemma_braces(n, false);
}

proof fn lemma_braces(n: nat, escapes: bool)
    ensures
        globs::scanned(times(n, '{') + times(n, '}'), escapes).deepest == n,
        globs::scanned(
            times(n, '{') + times(n, '}') + times(n, '{') + times(n, '}'),
            escapes,
        ).deepest == n,
{
    let none = Seq::<char>::empty();
    let a = times(n, '{');
    assert(none + a =~= a);
    lemma_opened(none, n, escapes);
    lemma_closed(a, n, escapes);
    let b = a + times(n, '}');
    lemma_opened(b, n, escapes);
    lemma_closed(b + times(n, '{'), n, escapes);
}

/// A pattern grows deeper by one brace at a time: no other character makes it deeper,
/// and nothing makes it less deep.
pub proof fn law_only_braces_nest(p: Seq<char>, c: char, escapes: bool)
    ensures
        ({
            let a = globs::scanned(p, escapes).deepest;
            let b = globs::scanned(p.push(c), escapes).deepest;
            a <= b <= a + 1 && (b == a + 1 ==> c == '{')
        }),
{
    lemma_one_more(p, c, escapes);
    lemma_depth(p, escapes);
}

/// A brace in a class does not nest, nor does one behind a backslash where that is an
/// escape. Behind both the pattern goes on as before.
pub proof fn law_braces_in_classes_do_not_nest(p: Seq<char>)
    ensures
        ends_outside(p, true) ==> globs::scanned(p + seq!['[', '{', ']'], true) == globs::scanned(
            p,
            true,
        ),
        ends_outside(p, false) ==> globs::scanned(p + seq!['[', '{', ']'], false)
            == globs::scanned(p, false),
        ends_outside(p, true) ==> globs::scanned(p + seq!['[', '!', '{', ']'], true)
            == globs::scanned(p, true),
        ends_outside(p, false) ==> globs::scanned(p + seq!['[', '!', '{', ']'], false)
            == globs::scanned(p, false),
        ends_outside(p, true) ==> globs::scanned(p + seq!['\\', '{'], true) == globs::scanned(
            p,
            true,
        ),
        ends_outside(p, false) ==> globs::scanned(p + seq!['\\', '{'], false) == globs::scanned(
            p.push('{'),
            false,
        ),
{
    lemma_class(p, true);
    lemma_class(p, false);
    let q = p.push('\\');
    assert(p + seq!['\\', '{'] =~= q.push('{'));
    lemma_one_more(p, '\\', true);
    lemma_one_more(q, '{', true);
    lemma_one_more(p, '\\', false);
    lemma_one_more(q, '{', false);
    lemma_one_more(p, '{', false);
}

proof fn lemma_class(p: Seq<char>, escapes: bool)
    ensures
        ends_outside(p, escapes) ==> globs::scanned(p + seq!['[', '{', ']'], escapes)
            == globs::scanned(p, escapes),
        ends_outside(p, escapes) ==> globs::scanned(p + seq!['[', '!', '{', ']'], escapes)
            == globs::scanned(p, escapes),
{
    let a = p.push('[');
    let b = a.push('{');
    assert(p + seq!['[', '{', ']'] =~= b.push(']'));
    lemma_one_more(p, '[', escapes);
    lemma_one_more(a, '{', escapes);
    lemma_one_more(b, ']', escapes);
    let c = a.push('!');
    let d = c.push('{');
    assert(p + seq!['[', '!', '{', ']'] =~= d.push(']'));
    lemma_one_more(a, '!', escapes);
    lemma_one_more(c, '{', escapes);
    lemma_one_more(d, ']', escapes);
}

// ---------------------------------------------------------------------------
// Searching for texts
// ---------------------------------------------------------------------------

/// Whether no character of a text can stand for others.
pub open spec fn is_text(s: Seq<char>) -> bool {
    forall|i: int|
        0 <= i < s.len() ==> #[trigger] s[i] != '?' && s[i] != '*' && s[i] != '[' && s[i] != '{'
}

proof fn lemma_text(s: Seq<char>)
    ensures
        globs::has_wild(s) <==> !is_text(s),
{
    if !is_text(s) {
        let i = choose|i: int|
            0 <= i < s.len() && !(#[trigger] s[i] != '?' && s[i] != '*' && s[i] != '[' && s[i]
                != '{');
        assert(globs::wild(s[i]));
    }
    if globs::has_wild(s) {
        let i = choose|i: int| 0 <= i < s.len() && globs::wild(#[trigger] s[i]);
        assert(s[i] == '?' || s[i] == '*' || s[i] == '[' || s[i] == '{');
    }
}

proof fn lemma_text_stays(s: Seq<char>)
    requires
        is_text(s),
    ensures
        globs::without_heads(s) == s,
        globs::without_tails(s) == s,
{
    if s.len() >= 3 {
        assert(s[0] != '*');
        assert(s[s.len() - 1] != '*');
    }
}

/// A text is searched for, also at any depth and with all that is below it.
pub proof fn law_texts_are_searched(s: Seq<char>)
    requires
        is_text(s),
    ensures
        globs::searched(s),
        globs::searched(seq!['*', '*', '/'] + s),
        globs::searched(s + seq!['/', '*', '*']),
{
    let head = seq!['*', '*', '/'] + s;
    let tail = s + seq!['/', '*', '*'];
    lemma_text(s);
    lemma_text_stays(s);
    assert(head.skip(3) =~= s);
    assert(globs::without_heads(head) == globs::without_heads(s));
    assert(tail.take(tail.len() - 3) =~= s);
    assert(globs::without_tails(tail) == globs::without_tails(s));
}

proof fn lemma_kept_behind_heads(p: Seq<char>, i: int)
    requires
        0 <= i < p.len(),
        p[i] == '?' || p[i] == '[' || p[i] == '{',
    ensures
        globs::has_wild(globs::without_heads(p)),
    decreases p.len(),
{
    if p.len() >= 3 && p[0] == '*' && p[1] == '*' && p[2] == '/' {
        assert(p.skip(3)[i - 3] == p[i]);
        lemma_kept_behind_heads(p.skip(3), i - 3);
    } else {
        assert(globs::wild(p[i]));
    }
}

proof fn lemma_kept_before_tails(p: Seq<char>, i: int)
    requires
        0 <= i < p.len(),
        p[i] == '?' || p[i] == '[' || p[i] == '{',
    ensures
        globs::has_wild(globs::without_tails(p)),
    decreases p.len(),
{
    let n = p.len();
    if n >= 3 && p[n - 3] == '/' && p[n - 2] == '*' && p[n - 1] == '*' {
        assert(p.take(n - 3)[i] == p[i]);
        lemma_kept_before_tails(p.take(n - 3), i);
    } else {
        assert(globs::wild(p[i]));
    }
}

/// A pattern with a question mark, a class or alternatives is not searched for, unless
/// there is a backslash in it.
pub proof fn law_patterns_are_not_searched(p: Seq<char>, i: int)
    requires
        0 <= i < p.len(),
        p[i] == '?' || p[i] == '[' || p[i] == '{',
        !p.contains('\\'),
    ensures
        !globs::searched(p),
        globs::not_too_long(p),
{
    lemma_kept_behind_heads(p, i);
    lemma_kept_before_tails(p, i);
}

} // verus!
