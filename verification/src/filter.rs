//! The filter of a `.mpyinclude` file.

use vstd::prelude::*;
use vstd::slice::slice_subrange;

use crate::globs;
use crate::globs::is_not_too_long;
use crate::globs::is_shallow;
use crate::globs::GlobList;
use crate::globs::GlobSets;
use crate::text;
use crate::text::find;
use crate::text::from_chars;
use crate::text::has_char;
use crate::text::split_lines;
use crate::text::trim;

verus! {

/// The include file name looked for in the project directory.
pub const INCLUDE_FILE: &'static str = ".mpyinclude";

// ---------------------------------------------------------------------------
// The lines of an include file
// ---------------------------------------------------------------------------

/// A line of an include file that holds a pattern, and the glob for it.
pub struct IncludeLine {
    pub line: String,
    pub pattern: String,
}

/// The mathematical value of an `IncludeLine`.
pub struct LineView {
    pub line: Seq<char>,
    pub pattern: Seq<char>,
}

impl View for IncludeLine {
    type V = LineView;

    open spec fn view(&self) -> LineView {
        LineView { line: self.line@, pattern: self.pattern@ }
    }
}

/// A line without its comment and without white space around the rest.
pub open spec fn stripped(line: Seq<char>) -> Seq<char> {
    text::trimmed(
        match text::position(line, '#') {
            Some(k) => line.take(k as int),
            None => line,
        },
    )
}

/// The glob for a pattern: one without `/` matches at any depth.
pub open spec fn glob_for(line: Seq<char>) -> Seq<char> {
    if line.contains('/') {
        line
    } else {
        "**/"@ + line
    }
}

/// The patterns on lines. Lines that are blank without their comment hold none.
pub open spec fn patterns(ls: Seq<Seq<char>>) -> Seq<LineView>
    decreases ls.len(),
{
    if ls.len() == 0 {
        Seq::empty()
    } else {
        let before = patterns(ls.drop_last());
        let line = stripped(ls.last());
        if line.len() == 0 {
            before
        } else {
            before.push(LineView { line, pattern: glob_for(line) })
        }
    }
}

/// The values of include lines.
pub open spec fn line_views(v: Seq<IncludeLine>) -> Seq<LineView> {
    Seq::new(v.len(), |i: int| v[i]@)
}

fn glob_text(line: &[char]) -> (r: String)
    ensures
        r@ == glob_for(line@),
{
    let s: String = from_chars(line);
    if has_char(line, '/') {
        s
    } else {
        let mut r: String = "**/".to_owned();
        r.append(s.as_str());
        r
    }
}

/// Reads the patterns of an include file.
///
/// Format:
/// - One glob pattern per line
/// - `#` starts a comment (inline comments supported)
/// - Blank lines are ignored
/// - Patterns without `/` match against filename at any depth (e.g. `*.py`)
/// - Patterns with `/` match against the relative path (e.g. `src/*.py`)
pub fn include_lines(content: &str) -> (r: Vec<IncludeLine>)
    ensures
        line_views(r@) == patterns(text::lines(content@)),
{
    let ls: Vec<Vec<char>> = split_lines(content);
    let ghost all = text::lines(content@);
    let mut out: Vec<IncludeLine> = Vec::new();
    let mut i: usize = 0;
    assert(line_views(out@) =~= Seq::empty());
    while i < ls.len()
        invariant
            i <= ls.len(),
            text::texts(ls@) == all,
            line_views(out@) == patterns(all.take(i as int)),
        decreases ls.len() - i,
    {
        assert(all.take(i + 1).drop_last() =~= all.take(i as int));
        assert(all.take(i + 1).last() == ls@[i as int]@);
        let raw: &[char] = ls[i].as_slice();
        let n: usize = raw.len();
        proof {
            text::lemma_position(raw@, '#');
        }
        let kept: &[char] = match find(raw, '#') {
            Some(k) => slice_subrange(raw, 0, k),
            None => raw,
        };
        assert(kept@ =~= (match text::position(raw@, '#') {
            Some(k) => raw@.take(k as int),
            None => raw@,
        }));
        let line: &[char] = trim(kept);
        if line.len() > 0 {
            let ghost before = out@;
            let found: IncludeLine = IncludeLine { line: from_chars(line), pattern: glob_text(line) };
            out.push(found);
            assert(line_views(out@) =~= line_views(before).push(found@));
        }
        i = i + 1;
    }
    assert(all.take(i as int) =~= all);
    out
}

// ---------------------------------------------------------------------------
// The filter
// ---------------------------------------------------------------------------

/// Why the content of an include file gives no filter.
#[derive(Debug)]
pub enum IncludeError {
    /// A line that is no glob pattern.
    InvalidPattern { line: String, reason: String },
    /// A pattern whose alternatives are nested too deep.
    TooDeep { line: String },
    /// A pattern that is too long to be searched for.
    TooLong,
    /// No line holds a pattern.
    NoPatterns,
    /// The patterns could not be put together.
    Matcher { reason: String },
}

impl IncludeError {
    /// The text for an error.
    pub open spec fn text(&self) -> Seq<char> {
        match *self {
            IncludeError::InvalidPattern { line, reason } => "invalid glob pattern '"@ + line@
                + "': "@ + reason@,
            IncludeError::TooDeep { line } => "alternatives nested too deep in glob pattern '"@
                + line@ + "'"@,
            IncludeError::TooLong => ".mpyinclude contains a pattern that is too long"@,
            IncludeError::NoPatterns => ".mpyinclude contains no valid patterns"@,
            IncludeError::Matcher { reason } => "failed to build glob matcher: "@ + reason@,
        }
    }

    /// The text shown to a user.
    pub fn message(&self) -> (r: String)
        ensures
            r@ == self.text(),
    {
        match self {
            IncludeError::InvalidPattern { line, reason } => {
                let mut s: String = "invalid glob pattern '".to_owned();
                s.append(line.as_str());
                s.append("': ");
                s.append(reason.as_str());
                s
            },
            IncludeError::TooDeep { line } => {
                let mut s: String = "alternatives nested too deep in glob pattern '".to_owned();
                s.append(line.as_str());
                s.append("'");
                s
            },
            IncludeError::TooLong => ".mpyinclude contains a pattern that is too long".to_owned(),
            IncludeError::NoPatterns => ".mpyinclude contains no valid patterns".to_owned(),
            IncludeError::Matcher { reason } => {
                let mut s: String = "failed to build glob matcher: ".to_owned();
                s.append(reason.as_str());
                s
            },
        }
    }
}

/// A filter built from a `.mpyinclude` file that determines which files
/// are considered for syncing / uploading / diffing.
pub struct IncludeFilter {
    matcher: GlobSets,
}

impl View for IncludeFilter {
    type V = Set<Seq<char>>;

    /// The paths that the filter lets through.
    closed spec fn view(&self) -> Set<Seq<char>> {
        self.matcher@
    }
}

/// The globs of patterns. `*` and `?` stop at `/`.
pub open spec fn globs_of(pats: Seq<LineView>) -> Seq<(Seq<char>, bool)> {
    Seq::new(pats.len(), |i: int| (pats[i].pattern, true))
}

/// Whether `globset` can be asked for a pattern: its alternatives are not nested too
/// deep, and it is not too long.
pub open spec fn within_limits(pattern: Seq<char>) -> bool {
    globs::nested_at_most(pattern, globs::MAX_DEPTH as nat) && globs::not_too_long(pattern)
}

/// Whether the first `k` patterns were accepted, as far as this is the same on
/// every platform.
pub open spec fn accepted(pats: Seq<LineView>, k: int) -> bool {
    forall|i: int|
        0 <= i < k ==> within_limits((#[trigger] pats[i]).pattern) && (globs::portable(
            pats[i].pattern,
        ) ==> globs::glob_error(pats[i].pattern, true) is None)
}

/// Whether all patterns are the same on every platform.
pub open spec fn all_portable(pats: Seq<LineView>) -> bool {
    forall|i: int| 0 <= i < pats.len() ==> globs::portable((#[trigger] pats[i]).pattern)
}

/// Whether patterns can be put together for sure: they are simple, or few, short and
/// shallow.
pub open spec fn surely_built(pats: Seq<LineView>) -> bool {
    globs::all_simple(globs_of(pats)) || globs::are_small(globs_of(pats))
}

/// Whether each pattern is accepted on every platform: it has no brackets, or
/// `globset` accepts it.
pub open spec fn surely_accepted(pats: Seq<LineView>) -> bool {
    forall|i: int|
        0 <= i < pats.len() ==> globs::starry((#[trigger] pats[i]).pattern) || (globs::portable(
            pats[i].pattern,
        ) && globs::glob_error(pats[i].pattern, true) is None)
}

/// Whether patterns have together no more bytes than make a set for sure, and are not
/// nested deeper than in one.
pub open spec fn short_and_shallow(pats: Seq<LineView>) -> bool {
    &&& globs::globs_bytes(globs_of(pats)) <= globs::SURE_BYTES
    &&& forall|i: int|
        0 <= i < pats.len() ==> globs::nested_at_most(
            (#[trigger] pats[i]).pattern,
            globs::SURE_DEPTH as nat,
        )
}

/// Whether `e` is the error for patterns: there are none; or one was refused after
/// those before it had been accepted; or all were accepted and `globset` would not
/// put them together.
pub open spec fn is_error_of(pats: Seq<LineView>, e: IncludeError) -> bool {
    match e {
        IncludeError::NoPatterns => pats.len() == 0,
        IncludeError::TooDeep { line } => exists|k: int|
            {
                &&& 0 <= k < pats.len()
                &&& line@ == (#[trigger] pats[k]).line
                &&& !globs::nested_at_most(pats[k].pattern, globs::MAX_DEPTH as nat)
                &&& accepted(pats, k)
            },
        IncludeError::TooLong => exists|k: int|
            {
                &&& 0 <= k < pats.len()
                &&& globs::nested_at_most((#[trigger] pats[k]).pattern, globs::MAX_DEPTH as nat)
                &&& !globs::not_too_long(pats[k].pattern)
                &&& accepted(pats, k)
            },
        IncludeError::InvalidPattern { line, reason } => exists|k: int|
            {
                &&& 0 <= k < pats.len()
                &&& line@ == (#[trigger] pats[k]).line
                &&& within_limits(pats[k].pattern)
                &&& globs::portable(pats[k].pattern) ==> globs::glob_error(pats[k].pattern, true)
                    == Some(reason@)
                &&& !globs::starry(pats[k].pattern)
                &&& accepted(pats, k)
            },
        IncludeError::Matcher { reason } => {
            &&& pats.len() > 0
            &&& accepted(pats, pats.len() as int)
            &&& !surely_built(pats)
        },
    }
}

/// Whether patterns can give a result: a filter for the paths that the patterns
/// accept, or an error.
pub open spec fn is_outcome(
    pats: Seq<LineView>,
    r: Result<Set<Seq<char>>, IncludeError>,
) -> bool {
    match r {
        Ok(paths) => {
            &&& pats.len() > 0
            &&& accepted(pats, pats.len() as int)
            &&& globs::accepts(globs_of(pats), paths)
        },
        Err(e) => is_error_of(pats, e),
    }
}

/// The mathematical value of a result.
pub open spec fn filter_outcome(r: Result<IncludeFilter, IncludeError>) -> Result<
    Set<Seq<char>>,
    IncludeError,
> {
    match r {
        Ok(f) => Ok(f@),
        Err(e) => Err(e),
    }
}

proof fn lemma_no_depth(p: Seq<char>, escapes: bool)
    requires
        globs::starry(p),
    ensures
        globs::scanned(p, escapes).deepest == 0,
        globs::scanned(p, escapes).place == globs::Place::Outside,
    decreases p.len(),
{
    if p.len() > 0 {
        let before = p.drop_last();
        assert(p[p.len() - 1] == p.last());
        assert forall|i: int| 0 <= i < before.len() implies !globs::special(#[trigger] before[i])
            || before[i] == '*' || before[i] == '?' by {
            assert(before[i] == p[i]);
        }
        lemma_no_depth(before, escapes);
    }
}

proof fn lemma_simple_is_starry(p: Seq<char>)
    requires
        globs::simple_glob(p),
    ensures
        globs::starry(p),
{
    reveal_strlit("**/");
    reveal_strlit("**/*.");
    let n = if globs::plain(p) {
        0int
    } else if p.len() > 3 && p.take(3) == "**/"@ && globs::plain(p.skip(3)) {
        3int
    } else {
        5int
    };
    assert forall|i: int| 0 <= i < p.len() implies !globs::special(#[trigger] p[i]) || p[i] == '*'
        || p[i] == '?' by {
        if i < n {
            assert(p[i] == p.take(n)[i]);
        } else {
            assert(p[i] == p.skip(n)[i - n]);
        }
    }
}

proof fn lemma_patterns_are_not_empty(ls: Seq<Seq<char>>)
    ensures
        globs::globs_bytes(globs_of(patterns(ls))) >= patterns(ls).len(),
    decreases ls.len(),
{
    if ls.len() > 0 {
        lemma_patterns_are_not_empty(ls.drop_last());
        let before = patterns(ls.drop_last());
        let all = patterns(ls);
        if all.len() > before.len() {
            let p = all.last().pattern;
            assert(globs_of(all).drop_last() =~= globs_of(before));
            reveal_strlit("**/");
            assert(p.len() > 0);
            assert(vstd::utf8::encode_scalar(p[0] as u32).len() >= 1);
            assert(vstd::utf8::encode_utf8(p).len() >= 1);
        }
    }
}

proof fn lemma_bytes_of_one(globs: Seq<(Seq<char>, bool)>, i: int)
    requires
        0 <= i < globs.len(),
    ensures
        globs::bytes_of(globs[i].0) <= globs::globs_bytes(globs),
    decreases globs.len(),
{
    if i < globs.len() - 1 {
        assert(globs.drop_last()[i] == globs[i]);
        lemma_bytes_of_one(globs.drop_last(), i);
    }
}

/// Short and shallow patterns are within the limits, and can be put together.
proof fn lemma_short_and_shallow(ls: Seq<Seq<char>>)
    requires
        short_and_shallow(patterns(ls)),
    ensures
        surely_built(patterns(ls)),
        forall|i: int|
            0 <= i < patterns(ls).len() ==> within_limits((#[trigger] patterns(ls)[i]).pattern),
{
    let pats = patterns(ls);
    let globs = globs_of(pats);
    lemma_patterns_are_not_empty(ls);
    assert forall|i: int| 0 <= i < globs.len() implies globs::nested_at_most(
        (#[trigger] globs[i]).0,
        globs::SURE_DEPTH as nat,
    ) by {
        assert(globs[i].0 == pats[i].pattern);
    }
    assert forall|i: int| 0 <= i < pats.len() implies within_limits(
        (#[trigger] pats[i]).pattern,
    ) by {
        lemma_bytes_of_one(globs, i);
        assert(globs[i].0 == pats[i].pattern);
    }
}

/// Simple patterns are accepted and not nested.
proof fn lemma_simple_patterns(pats: Seq<LineView>)
    requires
        globs::all_simple(globs_of(pats)),
    ensures
        surely_accepted(pats),
        forall|i: int|
            0 <= i < pats.len() ==> globs::nested_at_most(
                (#[trigger] pats[i]).pattern,
                globs::MAX_DEPTH as nat,
            ),
{
    assert forall|i: int| 0 <= i < pats.len() implies globs::starry((#[trigger] pats[i]).pattern)
        && globs::nested_at_most(pats[i].pattern, globs::MAX_DEPTH as nat) by {
        assert(globs::simple_glob(globs_of(pats)[i].0));
        lemma_simple_is_starry(pats[i].pattern);
        lemma_no_depth(pats[i].pattern, true);
        lemma_no_depth(pats[i].pattern, false);
    }
}

impl IncludeFilter {
    /// Parse `.mpyinclude` content into an `IncludeFilter`.
    ///
    /// Patterns that `globset` accepts and that are short and shallow always give a
    /// filter, and so do simple ones, however many. Whether others that `globset`
    /// accepts one by one can be put together is up to `globset`.
    pub fn parse(content: &str) -> (r: Result<IncludeFilter, IncludeError>)
        ensures
            is_outcome(patterns(text::lines(content@)), filter_outcome(r)),
            ({
                let pats = patterns(text::lines(content@));
                pats.len() > 0 && surely_accepted(pats) && short_and_shallow(pats) ==> r is Ok
            }),
            ({
                let pats = patterns(text::lines(content@));
                pats.len() > 0 && globs::all_simple(globs_of(pats)) && (forall|i: int|
                    0 <= i < pats.len() ==> globs::not_too_long((#[trigger] pats[i]).pattern))
                    ==> r is Ok
            }),
    {
        let found: Vec<IncludeLine> = include_lines(content);
        let ghost pats = patterns(text::lines(content@));
        proof {
            if short_and_shallow(pats) {
                lemma_short_and_shallow(text::lines(content@));
            }
            if globs::all_simple(globs_of(pats)) {
                lemma_simple_patterns(pats);
            }
        }
        let mut list: GlobList = GlobList::new();
        let mut i: usize = 0;
        assert(list@ =~= globs_of(pats).take(0));
        while i < found.len()
            invariant
                i <= found.len(),
                line_views(found@) == pats,
                pats == patterns(text::lines(content@)),
                list.wf(),
                list@ == globs_of(pats).take(i as int),
                accepted(pats, i as int),
                short_and_shallow(pats) ==> forall|k: int|
                    0 <= k < pats.len() ==> within_limits((#[trigger] pats[k]).pattern),
                globs::all_simple(globs_of(pats)) ==> surely_accepted(pats) && forall|k: int|
                    0 <= k < pats.len() ==> globs::nested_at_most(
                        (#[trigger] pats[k]).pattern,
                        globs::MAX_DEPTH as nat,
                    ),
            decreases found.len() - i,
        {
            assert(pats[i as int] == found@[i as int]@);
            let pattern: &str = found[i].pattern.as_str();
            if !is_shallow(pattern) {
                return Err(IncludeError::TooDeep { line: found[i].line.as_str().to_owned() });
            }
            if !is_not_too_long(pattern) {
                return Err(IncludeError::TooLong);
            }
            match list.add_pattern(pattern) {
                Ok(_) => {
                    assert(globs_of(pats).take(i + 1) =~= globs_of(pats).take(i as int).push(
                        globs_of(pats)[i as int],
                    ));
                },
                Err(reason) => {
                    return Err(
                        IncludeError::InvalidPattern {
                            line: found[i].line.as_str().to_owned(),
                            reason,
                        },
                    );
                },
            }
            i = i + 1;
        }
        if found.len() == 0 {
            return Err(IncludeError::NoPatterns);
        }
        assert(globs_of(pats).take(i as int) =~= globs_of(pats));
        match list.build() {
            Ok(matcher) => Ok(IncludeFilter { matcher }),
            Err(reason) => {
                proof {
                    if short_and_shallow(pats) {
                        lemma_short_and_shallow(text::lines(content@));
                    }
                }
                Err(IncludeError::Matcher { reason })
            },
        }
    }

    /// Check if a relative path (e.g., `src/main.py`, `config.json`)
    /// matches any include pattern.
    pub fn is_match(&self, rel_path: &str) -> (r: bool)
        ensures
            r == self@.contains(rel_path@),
    {
        self.matcher.is_match(rel_path)
    }
}

} // verus!
