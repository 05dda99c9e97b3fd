//! What holds of include files: comments, white space and blank lines do not matter,
//! and the globs alone decide what a filter lets through.

use vstd::prelude::*;

use crate::filter;
use crate::filter::IncludeError;
use crate::filter::LineView;
use crate::globs;
use crate::text;
use crate::text_laws;

verus! {

/// What follows `#` on a line does not matter.
pub proof fn law_comments_do_not_matter(line: Seq<char>, comment: Seq<char>)
    requires
        !line.contains('#'),
    ensures
        filter::stripped(line + seq!['#'] + comment) == filter::stripped(line),
{
    let all = line + seq!['#'] + comment;
    let k = line.len();
    assert(all[k as int] == '#');
    assert forall|j: int| 0 <= j < k implies all[j] != '#' by {
        assert(all[j] == line[j]);
    }
    text::lemma_position_unique(all, '#', k);
    assert(all.take(k as int) =~= line);
    text::lemma_position(line, '#');
}

/// What is left of a line without a comment is the line without the white space around
/// it. So a line that is white space alone is blank.
pub proof fn law_white_space_around_a_line_does_not_matter(
    a: Seq<char>,
    s: Seq<char>,
    z: Seq<char>,
)
    requires
        text_laws::is_blank(a),
        text_laws::is_tight(s),
        text_laws::is_blank(z),
        !s.contains('#'),
    ensures
        filter::stripped(a + s + z) == s,
{
    let line = a + s + z;
    text_laws::law_trimming_leaves_the_text(a, s, z);
    text::lemma_position(line, '#');
    if text::position(line, '#') is Some {
        let k = text::position(line, '#')->0 as int;
        if k < a.len() {
            assert(line[k] == a[k]);
        } else if k < a.len() + s.len() {
            assert(line[k] == s[k - a.len()]);
            assert(s.contains(s[k - a.len()]));
        } else {
            assert(line[k] == z[k - a.len() - s.len()]);
        }
    }
}

/// A pattern with a slash is a glob for the path as it stands. One without matches the
/// name at any depth.
pub proof fn law_globs_of_lines(line: Seq<char>)
    ensures
        line.contains('/') ==> filter::glob_for(line) == line,
        !line.contains('/') ==> filter::glob_for(line) == seq!['*', '*', '/'] + line,
{
    reveal_strlit("**/");
    assert("**/"@ =~= seq!['*', '*', '/']);
}

/// A line that is blank, or holds a comment only, does not matter wherever it
/// stands.
pub proof fn law_blank_lines_do_not_matter(
    before: Seq<Seq<char>>,
    line: Seq<char>,
    after: Seq<Seq<char>>,
)
    requires
        filter::stripped(line).len() == 0,
    ensures
        filter::patterns(before + seq![line] + after) == filter::patterns(before + after),
    decreases after.len(),
{
    let with = before + seq![line] + after;
    let without = before + after;
    if after.len() == 0 {
        assert(with.drop_last() =~= before);
        assert(without =~= before);
    } else {
        assert(with.drop_last() =~= before + seq![line] + after.drop_last());
        assert(without.drop_last() =~= before + after.drop_last());
        law_blank_lines_do_not_matter(before, line, after.drop_last());
    }
}

/// The lines that hold patterns, without comments and white space.
pub open spec fn kept_lines(ls: Seq<Seq<char>>) -> Seq<Seq<char>>
    decreases ls.len(),
{
    if ls.len() == 0 {
        Seq::empty()
    } else {
        let before = kept_lines(ls.drop_last());
        if filter::stripped(ls.last()).len() == 0 {
            before
        } else {
            before.push(filter::stripped(ls.last()))
        }
    }
}

/// The content with these lines alone.
pub open spec fn cleaned(kept: Seq<Seq<char>>) -> Seq<char>
    decreases kept.len(),
{
    if kept.len() == 0 {
        Seq::empty()
    } else {
        kept[0] + "\n"@ + cleaned(kept.skip(1))
    }
}

/// Contents whose lines agree without comments, white space and blank lines have
/// the same patterns.
pub proof fn law_kept_lines_decide(a: Seq<Seq<char>>, b: Seq<Seq<char>>)
    requires
        kept_lines(a) == kept_lines(b),
    ensures
        filter::patterns(a) == filter::patterns(b),
{
    lemma_patterns_of_kept(a);
    lemma_patterns_of_kept(b);
}

/// The patterns for lines that were kept.
pub open spec fn patterns_of(kept: Seq<Seq<char>>) -> Seq<LineView> {
    Seq::new(kept.len(), |i: int| LineView { line: kept[i], pattern: filter::glob_for(kept[i]) })
}

/// Each line that is kept holds a pattern, in the order of the lines, and no other line
/// does.
pub proof fn law_every_kept_line_is_a_pattern(ls: Seq<Seq<char>>)
    ensures
        filter::patterns(ls) == patterns_of(kept_lines(ls)),
{
    lemma_patterns_of_kept(ls);
}

proof fn lemma_patterns_of_kept(ls: Seq<Seq<char>>)
    ensures
        filter::patterns(ls) == patterns_of(kept_lines(ls)),
    decreases ls.len(),
{
    if ls.len() > 0 {
        lemma_patterns_of_kept(ls.drop_last());
        let before = kept_lines(ls.drop_last());
        let line = filter::stripped(ls.last());
        assert(patterns_of(before.push(line)) =~= patterns_of(before).push(
            LineView { line, pattern: filter::glob_for(line) },
        ));
    }
    assert(filter::patterns(ls) =~= patterns_of(kept_lines(ls)));
}

proof fn lemma_stripped(line: Seq<char>)
    ensures
        filter::stripped(filter::stripped(line)) == filter::stripped(line),
        forall|c: char| filter::stripped(line).contains(c) ==> line.contains(c),
        !filter::stripped(line).contains('#'),
        filter::stripped(line).len() > 0 ==> !text::white(filter::stripped(line).last()),
{
    text::lemma_position(line, '#');
    let part = match text::position(line, '#') {
        Some(k) => line.take(k as int),
        None => line,
    };
    let s = filter::stripped(line);
    text::lemma_trimmed(part);
    assert forall|c: char| part.contains(c) implies line.contains(c) by {
        let i = choose|i: int| 0 <= i < part.len() && part[i] == c;
        assert(line[i] == c);
    }
    assert(!part.contains('#'));
    assert(!s.contains('#'));
    text::lemma_position(s, '#');
    if text::position(s, '#') is Some {
        assert(s.contains(s[text::position(s, '#')->0 as int]));
    }
}

/// Whether a line is as `kept_lines` leaves it.
spec fn is_clean(k: Seq<char>) -> bool {
    k.len() > 0 && filter::stripped(k) == k && !k.contains('\n') && !text::white(k.last())
}

/// Whether lines are as `kept_lines` leaves them.
spec fn are_clean(kept: Seq<Seq<char>>) -> bool {
    forall|i: int| 0 <= i < kept.len() ==> is_clean(#[trigger] kept[i])
}

proof fn lemma_kept(ls: Seq<Seq<char>>)
    requires
        forall|i: int| 0 <= i < ls.len() ==> !(#[trigger] ls[i]).contains('\n'),
    ensures
        are_clean(kept_lines(ls)),
    decreases ls.len(),
{
    if ls.len() > 0 {
        let rest = ls.drop_last();
        assert forall|i: int| 0 <= i < rest.len() implies !(#[trigger] rest[i]).contains('\n') by {
            assert(rest[i] == ls[i]);
        }
        lemma_kept(rest);
        lemma_stripped(ls.last());
        assert(!ls[ls.len() - 1].contains('\n'));
        let before = kept_lines(rest);
        let all = kept_lines(ls);
        assert forall|i: int| 0 <= i < all.len() implies is_clean(#[trigger] all[i]) by {
            if i < before.len() {
                assert(all[i] == before[i]);
            }
        }
    }
}

proof fn lemma_lines_of_cleaned(kept: Seq<Seq<char>>)
    requires
        are_clean(kept),
    ensures
        text::lines(cleaned(kept)) == kept,
    decreases kept.len(),
{
    if kept.len() == 0 {
        assert(kept =~= Seq::empty());
    } else {
        let rest = kept.skip(1);
        assert forall|i: int| 0 <= i < rest.len() implies is_clean(#[trigger] rest[i]) by {
            assert(rest[i] == kept[i + 1]);
        }
        lemma_lines_of_cleaned(rest);
        let first = kept[0];
        assert(!text::white(first.last()));
        text::lemma_first_line(first, cleaned(rest));
        assert(seq![first] + rest =~= kept);
    }
}

proof fn lemma_kept_of_clean(kept: Seq<Seq<char>>)
    requires
        are_clean(kept),
    ensures
        kept_lines(kept) == kept,
    decreases kept.len(),
{
    if kept.len() > 0 {
        let before = kept.drop_last();
        assert forall|i: int| 0 <= i < before.len() implies is_clean(#[trigger] before[i]) by {
            assert(before[i] == kept[i]);
        }
        lemma_kept_of_clean(before);
        assert(kept[kept.len() - 1] == kept.last());
        assert(before.push(kept.last()) =~= kept);
    }
}

/// Cutting the comments away, trimming every line and dropping the blank ones
/// leaves a content with the same patterns. Where no line is left there are none.
pub proof fn law_cleaning_changes_no_pattern(content: Seq<char>)
    ensures
        ({
            let kept = kept_lines(text::lines(content));
            &&& text::lines(cleaned(kept)) == kept
            &&& filter::patterns(text::lines(cleaned(kept))) == filter::patterns(text::lines(content))
            &&& filter::patterns(text::lines(content)).len() == kept.len()
        }),
{
    let ls = text::lines(content);
    let kept = kept_lines(ls);
    text::lemma_lines_hold_no_line_end(content);
    lemma_kept(ls);
    lemma_lines_of_cleaned(kept);
    lemma_kept_of_clean(kept);
    law_kept_lines_decide(kept, ls);
    lemma_patterns_of_kept(ls);
}

/// A pattern without `/` may be written with `**/` before it.
pub proof fn law_any_depth_may_be_written_out(
    before: Seq<Seq<char>>,
    line: Seq<char>,
    after: Seq<Seq<char>>,
)
    requires
        filter::stripped(line).len() > 0,
        !filter::stripped(line).contains('/'),
    ensures
        filter::globs_of(filter::patterns(before + seq!["**/"@ + filter::stripped(line)] + after)) == filter::globs_of(
            filter::patterns(before + seq![line] + after),
        ),
    decreases after.len(),
{
    let short = filter::stripped(line);
    let long = "**/"@ + short;
    let a = before + seq![long] + after;
    let b = before + seq![line] + after;
    reveal_strlit("**/");
    if after.len() == 0 {
        assert(a.drop_last() =~= before);
        assert(b.drop_last() =~= before);
        assert(a.last() == long);
        assert(b.last() == line);
        lemma_long_form(line);
        assert(long[2] == '/');
        assert(long.contains('/'));
        assert(filter::globs_of(filter::patterns(a)) =~= filter::globs_of(filter::patterns(b)));
    } else {
        assert(a.drop_last() =~= before + seq![long] + after.drop_last());
        assert(b.drop_last() =~= before + seq![line] + after.drop_last());
        assert(a.last() == b.last());
        law_any_depth_may_be_written_out(before, line, after.drop_last());
        let x = filter::patterns(a.drop_last());
        let y = filter::patterns(b.drop_last());
        let s = filter::stripped(a.last());
        assert(x.len() == filter::globs_of(x).len() && y.len() == filter::globs_of(y).len());
        if s.len() > 0 {
            let v = LineView { line: s, pattern: filter::glob_for(s) };
            assert(filter::globs_of(x.push(v)) =~= filter::globs_of(x).push((v.pattern, true)));
            assert(filter::globs_of(y.push(v)) =~= filter::globs_of(y).push((v.pattern, true)));
        }
    }
}

proof fn lemma_long_form(line: Seq<char>)
    requires
        filter::stripped(line).len() > 0,
    ensures
        filter::stripped("**/"@ + filter::stripped(line)) == "**/"@ + filter::stripped(line),
{
    reveal_strlit("**/");
    let short = filter::stripped(line);
    let long = "**/"@ + short;
    lemma_stripped(line);
    text::lemma_position(long, '#');
    text::lemma_position(short, '#');
    if text::position(long, '#') is Some {
        let k = text::position(long, '#')->0 as int;
        assert(long[k] == '#');
        if k >= 3 {
            assert(short[k - 3] == '#');
        }
    }
    assert(long.last() == short.last());
    assert(!text::white(long[0]));
    assert(text::trimmed_start(long) == long);
    assert(text::trimmed_end(long) == long);
}

/// Where globs are the same on every platform, a filter lets a path through if and
/// only if one of them matches it.
pub proof fn law_filter_accepts_what_matches(
    pats: Seq<LineView>,
    paths: Set<Seq<char>>,
    path: Seq<char>,
)
    requires
        filter::is_outcome(pats, Ok(paths)),
        filter::all_portable(pats),
        globs::portable(path),
    ensures
        paths.contains(path) <==> globs::surely_matches(filter::globs_of(pats), path),
{
    let all = filter::globs_of(pats);
    if paths.contains(path) {
        assert(globs::may_match(all, path));
        let i = choose|i: int|
            0 <= i < all.len() && (!globs::portable((#[trigger] all[i]).0) || globs::glob_matches(
                all[i].0,
                all[i].1,
                path,
            ));
        assert(globs::portable(pats[i].pattern));
        assert(all[i].0 == pats[i].pattern);
    }
}

/// Whatever the other patterns hold, a filter lets through what a pattern without
/// backslash matches.
pub proof fn law_every_pattern_counts(
    pats: Seq<LineView>,
    paths: Set<Seq<char>>,
    i: int,
    path: Seq<char>,
)
    requires
        filter::is_outcome(pats, Ok(paths)),
        0 <= i < pats.len(),
        globs::portable(pats[i].pattern),
        globs::portable(path),
        globs::glob_matches(pats[i].pattern, true, path),
    ensures
        paths.contains(path),
{
    let all = filter::globs_of(pats);
    assert(all[i] == (pats[i].pattern, true));
    assert(globs::surely_matches(all, path));
}

/// The same globs have the same result wherever they stand: where they can be put
/// together for sure, both give a filter or neither does, and the filters let the
/// same paths through. A backslash, which platforms read differently, is left out.
pub proof fn law_same_globs_same_outcome(
    a: Seq<LineView>,
    b: Seq<LineView>,
    r: Result<Set<Seq<char>>, IncludeError>,
    q: Result<Set<Seq<char>>, IncludeError>,
)
    requires
        filter::globs_of(a) == filter::globs_of(b),
        filter::all_portable(a),
        filter::is_outcome(a, r),
        filter::is_outcome(b, q),
    ensures
        filter::surely_built(a) ==> (r is Ok <==> q is Ok),
        (r matches Err(e) && !(e is Matcher)) ==> q is Err && !(q->Err_0 is Matcher),
        r matches Ok(f) ==> q matches Ok(g) ==> forall|path: Seq<char>|
            globs::portable(path) ==> (#[trigger] f.contains(path) <==> g.contains(path)),
{
    assert(a.len() == filter::globs_of(a).len() && b.len() == filter::globs_of(b).len());
    assert forall|i: int| 0 <= i < a.len() implies (#[trigger] a[i]).pattern == b[i].pattern
        && globs::portable(b[i].pattern) by {
        assert(filter::globs_of(a)[i] == filter::globs_of(b)[i]);
        assert(globs::portable(a[i].pattern));
    }
    assert forall|i: int| 0 <= i < b.len() implies globs::portable((#[trigger] b[i]).pattern) by {
        assert(a[i].pattern == b[i].pattern);
    }
    lemma_accepted_alike(a, b);
    lemma_outcome(a, r);
    lemma_outcome(b, q);
    if r is Ok && q is Ok {
        let (f, g) = (r->Ok_0, q->Ok_0);
        assert forall|path: Seq<char>| globs::portable(path) implies (#[trigger] f.contains(path)
            <==> g.contains(path)) by {
            law_filter_accepts_what_matches(a, f, path);
            law_filter_accepts_what_matches(b, g, path);
        }
    }
}

proof fn lemma_accepted_alike(a: Seq<LineView>, b: Seq<LineView>)
    requires
        a.len() == b.len(),
        forall|i: int| 0 <= i < a.len() ==> (#[trigger] a[i]).pattern == b[i].pattern,
    ensures
        filter::accepted(a, a.len() as int) <==> filter::accepted(b, b.len() as int),
{
    assert forall|i: int| 0 <= i < b.len() implies a[i].pattern == (#[trigger] b[i]).pattern by {
        assert(a[i].pattern == b[i].pattern);
    }
}

/// Patterns are not accepted exactly where there is an error other than from putting
/// them together.
proof fn lemma_outcome(pats: Seq<LineView>, r: Result<Set<Seq<char>>, IncludeError>)
    requires
        filter::all_portable(pats),
        filter::is_outcome(pats, r),
    ensures
        (r is Err && !(r->Err_0 is Matcher)) <==> !(pats.len() > 0 && filter::accepted(
            pats,
            pats.len() as int,
        )),
{
}

/// Cutting the comments away, trimming every line and dropping the blank ones does
/// not change the result, and where no line is left there is an error. A backslash,
/// which platforms read differently, is left out.
pub proof fn law_cleaning_keeps_the_outcome(
    content: Seq<char>,
    r: Result<Set<Seq<char>>, IncludeError>,
    q: Result<Set<Seq<char>>, IncludeError>,
)
    requires
        filter::all_portable(filter::patterns(text::lines(content))),
        filter::is_outcome(filter::patterns(text::lines(content)), r),
        filter::is_outcome(
            filter::patterns(text::lines(cleaned(kept_lines(text::lines(content))))),
            q,
        ),
    ensures
        filter::surely_built(filter::patterns(text::lines(content))) ==> (r is Ok <==> q is Ok),
        kept_lines(text::lines(content)).len() == 0 ==> r is Err && q is Err,
        r matches Ok(f) ==> q matches Ok(g) ==> forall|path: Seq<char>|
            globs::portable(path) ==> (#[trigger] f.contains(path) <==> g.contains(path)),
{
    law_cleaning_changes_no_pattern(content);
    let pats = filter::patterns(text::lines(content));
    law_same_globs_same_outcome(pats, pats, r, q);
}

/// A plain line, and one with `*.` and a plain extension, are simple patterns.
pub proof fn law_plain_lines_are_simple(line: Seq<char>)
    requires
        globs::plain(line) || (line.len() > 2 && line.take(2) == "*."@ && globs::plain(line.skip(2))
            && !line.skip(2).contains('.') && !line.skip(2).contains('/')),
    ensures
        globs::simple_glob(filter::glob_for(line)),
{
    reveal_strlit("**/");
    reveal_strlit("*.");
    reveal_strlit("**/*.");
    let p = filter::glob_for(line);
    if globs::plain(line) {
        if !line.contains('/') {
            assert(p.take(3) =~= "**/"@);
            assert(p.skip(3) =~= line);
        }
    } else {
        let ext = line.skip(2);
        assert forall|i: int| 0 <= i < line.len() implies line[i] != '/' by {
            if i < 2 {
                assert(line[i] == line.take(2)[i]);
            } else {
                assert(line[i] == ext[i - 2]);
                assert(ext.contains(ext[i - 2]));
            }
        }
        assert(line[0] == line.take(2)[0] && line[1] == line.take(2)[1]);
        assert(p.take(5) =~= "**/*."@);
        assert(p.skip(5) =~= ext);
    }
}

/// A line without brackets is a pattern without brackets.
pub proof fn law_lines_without_brackets_stay_so(line: Seq<char>)
    requires
        globs::starry(line),
    ensures
        globs::starry(filter::glob_for(line)),
{
    reveal_strlit("**/");
    let p = filter::glob_for(line);
    if !line.contains('/') {
        assert forall|i: int| 0 <= i < p.len() implies !globs::special(#[trigger] p[i]) || p[i] == '*'
            || p[i] == '?' by {
            if i >= 3 {
                assert(p[i] == line[i - 3]);
            }
        }
    }
}

/// Whether a pattern was refused after those before it had been accepted.
pub open spec fn is_refused_line(pats: Seq<LineView>, k: int, line: Seq<char>) -> bool {
    0 <= k < pats.len() && pats[k].line == line && filter::accepted(pats, k)
}

/// An include file without patterns gives the error that says so, and only such a file
/// does. An error about a pattern names its line, and the patterns before it had been
/// accepted; one about the whole comes only where all had been.
pub proof fn law_errors_name_the_line(pats: Seq<LineView>, r: Result<Set<Seq<char>>, IncludeError>)
    requires
        filter::is_outcome(pats, r),
    ensures
        pats.len() == 0 <==> r == Err::<Set<Seq<char>>, IncludeError>(IncludeError::NoPatterns),
        r matches Err(IncludeError::InvalidPattern { line, reason }) ==> exists|k: int| #[trigger]
            is_refused_line(pats, k, line@) && !globs::starry(pats[k].pattern) && (globs::portable(
                pats[k].pattern,
            ) ==> globs::glob_error(pats[k].pattern, true) == Some(reason@)),
        r matches Err(IncludeError::TooDeep { line }) ==> exists|k: int| #[trigger]
            is_refused_line(pats, k, line@) && !globs::nested_at_most(pats[k].pattern, 1000),
        r matches Err(IncludeError::Matcher { reason }) ==> filter::accepted(
            pats,
            pats.len() as int,
        ),
        r is Ok ==> filter::accepted(pats, pats.len() as int),
{
    match r {
        Err(IncludeError::InvalidPattern { line, reason }) => {
            let k = choose|k: int|
                {
                    &&& 0 <= k < pats.len()
                    &&& line@ == (#[trigger] pats[k]).line
                    &&& filter::within_limits(pats[k].pattern)
                    &&& globs::portable(pats[k].pattern) ==> globs::glob_error(
                        pats[k].pattern,
                        true,
                    ) == Some(reason@)
                    &&& !globs::starry(pats[k].pattern)
                    &&& filter::accepted(pats, k)
                };
            assert(is_refused_line(pats, k, line@));
        },
        Err(IncludeError::TooDeep { line }) => {
            let k = choose|k: int|
                {
                    &&& 0 <= k < pats.len()
                    &&& line@ == (#[trigger] pats[k]).line
                    &&& !globs::nested_at_most(pats[k].pattern, globs::MAX_DEPTH as nat)
                    &&& filter::accepted(pats, k)
                };
            assert(is_refused_line(pats, k, line@));
        },
        _ => {},
    }
}

} // verus!
