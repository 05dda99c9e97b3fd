//! Sets of globs, built with `globset`.

use vstd::prelude::*;

use crate::text::to_chars;

verus! {

/// How deep the alternatives of a pattern may be nested. `globset` works its way down
/// nested alternatives, so the nesting is limited by the stack.
pub const MAX_DEPTH: usize = 1000;

/// How large a set may be, by `search_size`. What `globset` builds to search for texts
/// is numbered with 31 bits.
pub const MAX_SEARCH_SIZE: u64 = 0x7fff_0000;

/// How many globs, and how many bytes of patterns, make a set for sure. A regular
/// expression of `globset` may take ten mebibytes; a glob takes less than half a
/// kibibyte, and as much again for each byte of its pattern.
pub const SURE_BYTES: usize = 8192;

/// How deep alternatives may be nested in a set that is made for sure. A regular
/// expression may be nested 250 deep, and alternatives count three times.
pub const SURE_DEPTH: usize = 64;

// ---------------------------------------------------------------------------
// Measures of a pattern
// ---------------------------------------------------------------------------

/// Whether a text means the same on every platform: a backslash is an escape on
/// some and a separator on others.
pub open spec fn portable(s: Seq<char>) -> bool {
    !s.contains('\\')
}

/// Where in a pattern a reader is.
#[derive(Clone, Copy, PartialEq, Eq, Structural)]
pub enum Place {
    /// Outside of classes.
    Outside,
    /// Behind a backslash that escapes.
    Escaped,
    /// Behind the `[` of a class.
    Opened,
    /// Behind the `[!` or `[^` of a class.
    Negated,
    /// Behind the first character of a class.
    Inside,
}

/// What a reader of a pattern has seen: how many alternatives are open, how many were
/// at most, and where it is.
pub struct Scan {
    pub depth: nat,
    pub deepest: nat,
    pub place: Place,
}

/// What a reader has seen after one more character.
pub open spec fn scan_on(s: Scan, c: char, escapes: bool) -> Scan {
    match s.place {
        Place::Outside => if c == '{' {
            Scan {
                depth: s.depth + 1,
                deepest: if s.depth + 1 > s.deepest {
                    s.depth + 1
                } else {
                    s.deepest
                },
                place: Place::Outside,
            }
        } else if c == '}' {
            Scan {
                depth: if s.depth > 0 {
                    (s.depth - 1) as nat
                } else {
                    0
                },
                deepest: s.deepest,
                place: Place::Outside,
            }
        } else {
            Scan {
                depth: s.depth,
                deepest: s.deepest,
                place: if c == '[' {
                    Place::Opened
                } else if c == '\\' && escapes {
                    Place::Escaped
                } else {
                    Place::Outside
                },
            }
        },
        _ => Scan {
            depth: s.depth,
            deepest: s.deepest,
            place: match s.place {
                Place::Opened => if c == '!' || c == '^' {
                    Place::Negated
                } else {
                    Place::Inside
                },
                Place::Negated => Place::Inside,
                Place::Inside => if c == ']' {
                    Place::Outside
                } else {
                    Place::Inside
                },
                _ => Place::Outside,
            },
        },
    }
}

/// What a reader has seen of a pattern. Whether a backslash escapes what follows is
/// up to the platform.
pub open spec fn scanned(pattern: Seq<char>, escapes: bool) -> Scan
    decreases pattern.len(),
{
    if pattern.len() == 0 {
        Scan { depth: 0, deepest: 0, place: Place::Outside }
    } else {
        scan_on(scanned(pattern.drop_last(), escapes), pattern.last(), escapes)
    }
}

/// Whether the alternatives of a pattern are nested no deeper than `n`, on whatever
/// platform.
pub open spec fn nested_at_most(pattern: Seq<char>, n: nat) -> bool {
    scanned(pattern, true).deepest <= n && scanned(pattern, false).deepest <= n
}

/// How deep the alternatives of a pattern are nested.
fn nesting(chars: &Vec<char>, escapes: bool) -> (r: usize)
    ensures
        r == scanned(chars@, escapes).deepest,
{
    let mut depth: usize = 0;
    let mut deepest: usize = 0;
    let mut place: Place = Place::Outside;
    let mut i: usize = 0;
    assert(chars@.take(0).len() == 0);
    while i < chars.len()
        invariant
            i <= chars@.len(),
            depth <= deepest <= i,
            scanned(chars@.take(i as int), escapes) == (Scan {
                depth: depth as nat,
                deepest: deepest as nat,
                place,
            }),
        decreases chars@.len() - i,
    {
        assert(chars@.take(i + 1).drop_last() =~= chars@.take(i as int));
        let c: char = chars[i];
        match place {
            Place::Outside => {
                if c == '{' {
                    depth = depth + 1;
                    if depth > deepest {
                        deepest = depth;
                    }
                } else if c == '}' {
                    if depth > 0 {
                        depth = depth - 1;
                    }
                } else if c == '[' {
                    place = Place::Opened;
                } else if c == '\\' && escapes {
                    place = Place::Escaped;
                }
            },
            Place::Escaped => {
                place = Place::Outside;
            },
            Place::Opened => {
                place = if c == '!' || c == '^' {
                    Place::Negated
                } else {
                    Place::Inside
                };
            },
            Place::Negated => {
                place = Place::Inside;
            },
            Place::Inside => {
                if c == ']' {
                    place = Place::Outside;
                }
            },
        }
        i = i + 1;
    }
    assert(chars@.take(i as int) =~= chars@);
    deepest
}

/// Whether a pattern is nested no deeper than `globset` can go.
pub fn is_shallow(pattern: &str) -> (r: bool)
    ensures
        r == nested_at_most(pattern@, MAX_DEPTH as nat),
{
    let chars: Vec<char> = to_chars(pattern);
    nesting(&chars, true) <= MAX_DEPTH && nesting(&chars, false) <= MAX_DEPTH
}

/// Whether a character has a meaning of its own in a glob.
pub open spec fn special(c: char) -> bool {
    c == '?' || c == '*' || c == '[' || c == '{' || c == '}' || c == '\\'
}

/// Whether a text stands for itself in a glob.
pub open spec fn plain(s: Seq<char>) -> bool {
    s.len() > 0 && forall|i: int| 0 <= i < s.len() ==> !special(#[trigger] s[i])
}

/// Whether a glob is a plain path, a plain path at any depth, or a plain extension
/// at any depth.
pub open spec fn simple_glob(pattern: Seq<char>) -> bool {
    ||| plain(pattern)
    ||| pattern.len() > 3 && pattern.take(3) == "**/"@ && plain(pattern.skip(3))
    ||| pattern.len() > 5 && pattern.take(5) == "**/*."@ && plain(pattern.skip(5))
        && !pattern.skip(5).contains('.') && !pattern.skip(5).contains('/')
}

/// Whether a glob is without brackets: all that has a meaning of its own in it are
/// `*` and `?`.
pub open spec fn starry(pattern: Seq<char>) -> bool {
    forall|i: int|
        0 <= i < pattern.len() ==> !special(#[trigger] pattern[i]) || pattern[i] == '*'
            || pattern[i] == '?'
}

/// Whether a character can stand for others.
pub open spec fn wild(c: char) -> bool {
    c == '?' || c == '*' || c == '[' || c == '{'
}

/// Whether a character of a text can stand for others.
pub open spec fn has_wild(s: Seq<char>) -> bool {
    exists|i: int| 0 <= i < s.len() && wild(#[trigger] s[i])
}

/// A pattern without every `**/` before it.
pub open spec fn without_heads(p: Seq<char>) -> Seq<char>
    decreases p.len(),
{
    if p.len() >= 3 && p[0] == '*' && p[1] == '*' && p[2] == '/' {
        without_heads(p.skip(3))
    } else {
        p
    }
}

/// A pattern without every `/**` behind it.
pub open spec fn without_tails(p: Seq<char>) -> Seq<char>
    decreases p.len(),
{
    let n = p.len();
    if n >= 3 && p[n - 3] == '/' && p[n - 2] == '*' && p[n - 1] == '*' {
        without_tails(p.take(n - 3))
    } else {
        p
    }
}

/// Whether `globset` may search for a pattern as a text, at the beginning or the end
/// of a path. Where a backslash is in it, this is up to the platform.
pub open spec fn searched(pattern: Seq<char>) -> bool {
    ||| !portable(pattern)
    ||| !has_wild(without_heads(pattern))
    ||| !has_wild(without_tails(pattern))
}

/// Whether a glob may be searched for: where `*` and `?` do not stop at `/`, any may.
pub open spec fn is_searched(glob: (Seq<char>, bool)) -> bool {
    !glob.1 || searched(glob.0)
}

fn finds_wild(chars: &Vec<char>, from: usize, to: usize) -> (r: bool)
    requires
        from <= to <= chars@.len(),
    ensures
        r == has_wild(chars@.subrange(from as int, to as int)),
{
    let ghost part = chars@.subrange(from as int, to as int);
    let mut i: usize = from;
    while i < to
        invariant
            from <= i <= to <= chars@.len(),
            part == chars@.subrange(from as int, to as int),
            forall|j: int| 0 <= j < i - from ==> !wild(#[trigger] part[j]),
        decreases to - i,
    {
        let c: char = chars[i];
        assert(part[i - from] == c);
        if c == '?' || c == '*' || c == '[' || c == '{' {
            assert(wild(part[i - from]));
            return true;
        }
        i = i + 1;
    }
    false
}

/// Whether `globset` may search for a pattern as a text.
fn may_be_searched(pattern: &str) -> (r: bool)
    ensures
        r == searched(pattern@),
{
    let chars: Vec<char> = to_chars(pattern);
    let n: usize = chars.len();
    let mut i: usize = 0;
    while i < n
        invariant
            i <= n == chars@.len(),
            chars@ == pattern@,
            forall|j: int| 0 <= j < i ==> chars@[j] != '\\',
        decreases n - i,
    {
        if chars[i] == '\\' {
            assert(pattern@.contains(chars@[i as int]));
            return true;
        }
        i = i + 1;
    }
    assert(portable(pattern@));
    let mut from: usize = 0;
    assert(chars@.skip(0) =~= chars@);
    while n - from >= 3 && chars[from] == '*' && chars[from + 1] == '*' && chars[from + 2] == '/'
        invariant
            from <= n == chars@.len(),
            without_heads(chars@) == without_heads(chars@.skip(from as int)),
        decreases n - from,
    {
        assert(chars@.skip(from as int).skip(3) =~= chars@.skip(from + 3));
        from = from + 3;
    }
    assert(chars@.subrange(from as int, n as int) =~= chars@.skip(from as int));
    if !finds_wild(&chars, from, n) {
        return true;
    }
    let mut to: usize = n;
    assert(chars@.take(n as int) =~= chars@);
    while to >= 3 && chars[to - 3] == '/' && chars[to - 2] == '*' && chars[to - 1] == '*'
        invariant
            to <= n == chars@.len(),
            without_tails(chars@) == without_tails(chars@.take(to as int)),
        decreases to,
    {
        assert(chars@.take(to as int).take(to - 3) =~= chars@.take(to - 3));
        to = to - 3;
    }
    assert(chars@.subrange(0, to as int) =~= chars@.take(to as int));
    !finds_wild(&chars, 0, to)
}

// ---------------------------------------------------------------------------
// Measures of a set
// ---------------------------------------------------------------------------

/// How many bytes a pattern has.
pub open spec fn bytes_of(pattern: Seq<char>) -> nat {
    vstd::utf8::encode_utf8(pattern).len()
}

/// How many bytes the patterns of globs have together.
pub open spec fn globs_bytes(globs: Seq<(Seq<char>, bool)>) -> nat
    decreases globs.len(),
{
    if globs.len() == 0 {
        0
    } else {
        globs_bytes(globs.drop_last()) + bytes_of(globs.last().0)
    }
}

/// The globs that may be searched for.
pub open spec fn searched_globs(globs: Seq<(Seq<char>, bool)>) -> Seq<(Seq<char>, bool)>
    decreases globs.len(),
{
    if globs.len() == 0 {
        Seq::empty()
    } else {
        let before = searched_globs(globs.drop_last());
        if is_searched(globs.last()) {
            before.push(globs.last())
        } else {
            before
        }
    }
}

/// How large what searches for texts can become: in each of its states, of which
/// there are about as many as the texts have bytes, every text can be noted.
pub open spec fn search_size(globs: Seq<(Seq<char>, bool)>) -> nat {
    let texts = searched_globs(globs);
    texts.len() * (globs_bytes(texts) + 4096)
}

/// Whether a pattern is not too long to be searched for.
pub open spec fn not_too_long(pattern: Seq<char>) -> bool {
    searched(pattern) ==> bytes_of(pattern) + 4096 <= MAX_SEARCH_SIZE
}

/// Whether a pattern is not too long to be searched for.
pub fn is_not_too_long(pattern: &str) -> (r: bool)
    ensures
        r == not_too_long(pattern@),
{
    let n: usize = pattern.as_bytes().len();
    n as u64 <= MAX_SEARCH_SIZE - 4096 || !may_be_searched(pattern)
}

/// Whether all globs are simple.
pub open spec fn all_simple(globs: Seq<(Seq<char>, bool)>) -> bool {
    forall|i: int| 0 <= i < globs.len() ==> simple_glob((#[trigger] globs[i]).0)
}

/// Whether globs are few, short and shallow.
pub open spec fn are_small(globs: Seq<(Seq<char>, bool)>) -> bool {
    &&& globs.len() <= SURE_BYTES
    &&& globs_bytes(globs) <= SURE_BYTES
    &&& forall|i: int|
        0 <= i < globs.len() ==> nested_at_most((#[trigger] globs[i]).0, SURE_DEPTH as nat)
}

// ---------------------------------------------------------------------------
// What `globset` does
// ---------------------------------------------------------------------------

/// The type `globset::GlobSetBuilder`.
#[verifier::external_type_specification]
#[verifier::external_body]
pub struct ExGlobSetBuilder(globset::GlobSetBuilder);

/// The type `globset::GlobSet`.
#[verifier::external_type_specification]
#[verifier::external_body]
pub struct ExGlobSet(globset::GlobSet);

/// The globs that were added to a builder: each a pattern, and whether `*` and `?`
/// stop at `/`.
pub uninterp spec fn builder_globs(b: globset::GlobSetBuilder) -> Seq<(Seq<char>, bool)>;

/// The paths that a set accepts.
pub uninterp spec fn set_paths(s: globset::GlobSet) -> Set<Seq<char>>;

/// The error text with which `globset` refuses a pattern, if it refuses it.
pub uninterp spec fn glob_error(pattern: Seq<char>, literal_separator: bool) -> Option<Seq<char>>;

/// Whether a glob matches a path.
pub uninterp spec fn glob_matches(
    pattern: Seq<char>,
    literal_separator: bool,
    path: Seq<char>,
) -> bool;

/// Calls `GlobSetBuilder::new`, which gives a builder without globs.
#[verifier::external_body]
fn new_builder() -> (b: globset::GlobSetBuilder)
    ensures
        builder_globs(b) == Seq::<(Seq<char>, bool)>::empty(),
{
    globset::GlobSetBuilder::new()
}

/// Builds a glob with `GlobBuilder::build` and hands it to `GlobSetBuilder::add`.
/// A pattern that is refused leaves the builder as it was. Whether it is refused,
/// and the text of the error, depend on the pattern and the setting alone; this is
/// left open where the pattern holds a backslash, which platforms read differently.
/// A pattern without brackets is not refused. The bound on the nesting keeps the
/// recursion over alternatives within the stack.
#[verifier::external_body]
fn add_glob(b: &mut globset::GlobSetBuilder, pattern: &str, literal_separator: bool) -> (r: Result<
    (),
    String,
>)
    requires
        nested_at_most(pattern@, MAX_DEPTH as nat),
    ensures
        starry(pattern@) ==> r is Ok,
        match r {
            Ok(_) => builder_globs(*final(b)) == builder_globs(*old(b)).push(
                (pattern@, literal_separator),
            ),
            Err(_) => builder_globs(*final(b)) == builder_globs(*old(b)),
        },
        portable(pattern@) ==> glob_error(pattern@, literal_separator) == (match r {
            Ok(_) => None::<Seq<char>>,
            Err(msg) => Some(msg@),
        }),
{
    match globset::GlobBuilder::new(pattern).literal_separator(literal_separator).build() {
        Ok(glob) => {
            b.add(glob);
            Ok(())
        },
        Err(e) => Err(e.to_string()),
    }
}

/// Calls `GlobSetBuilder::build`. The set accepts a path that one of the globs
/// matches, and accepts no path that none of them matches; of a glob or a path with
/// a backslash, which platforms read differently, this is left open. The call
/// succeeds where all globs are simple, which are looked up as texts, and where they
/// are few, short and shallow, so that their regular expressions are within the
/// limits that `globset` sets them. For others it is left open whether it succeeds:
/// this depends on how much memory their regular expressions take on the machine.
/// The bound on the size keeps the number of texts that are noted in what searches
/// for them, and so the call, from overflowing.
#[verifier::external_body]
fn build_set(b: &globset::GlobSetBuilder) -> (r: Result<globset::GlobSet, String>)
    requires
        search_size(builder_globs(*b)) <= MAX_SEARCH_SIZE,
    ensures
        all_simple(builder_globs(*b)) || are_small(builder_globs(*b)) ==> r is Ok,
        match r {
            Ok(set) => forall|path: Seq<char>, i: int|
                0 <= i < builder_globs(*b).len() && portable(path) && portable(
                    builder_globs(*b)[i].0,
                ) && #[trigger] glob_matches(
                    builder_globs(*b)[i].0,
                    builder_globs(*b)[i].1,
                    path,
                ) ==> set_paths(set).contains(path),
            Err(_) => true,
        },
        match r {
            Ok(set) => forall|path: Seq<char>|
                portable(path) && #[trigger] set_paths(set).contains(path) ==> exists|i: int|
                    0 <= i < builder_globs(*b).len() && (!portable(
                        (#[trigger] builder_globs(*b)[i]).0,
                    ) || glob_matches(builder_globs(*b)[i].0, builder_globs(*b)[i].1, path)),
            Err(_) => true,
        },
{
    b.build().map_err(|e| e.to_string())
}

/// Calls `GlobSet::is_match`, which tells whether the set accepts a path.
#[verifier::external_body]
fn set_is_match(s: &globset::GlobSet, path: &str) -> (r: bool)
    ensures
        r == set_paths(*s).contains(path@),
{
    s.is_match(path)
}

// ---------------------------------------------------------------------------
// Sets of any size
// ---------------------------------------------------------------------------

/// Whether one of several globs that are the same on every platform matches a path.
pub open spec fn surely_matches(globs: Seq<(Seq<char>, bool)>, path: Seq<char>) -> bool {
    exists|i: int|
        0 <= i < globs.len() && portable((#[trigger] globs[i]).0) && glob_matches(
            globs[i].0,
            globs[i].1,
            path,
        )
}

/// Whether one of several globs matches a path, or may do so on some platform.
pub open spec fn may_match(globs: Seq<(Seq<char>, bool)>, path: Seq<char>) -> bool {
    exists|i: int|
        0 <= i < globs.len() && (!portable((#[trigger] globs[i]).0) || glob_matches(
            globs[i].0,
            globs[i].1,
            path,
        ))
}

/// Whether `paths` are those that globs accept: all that one of them matches, and
/// none that cannot match.
pub open spec fn accepts(globs: Seq<(Seq<char>, bool)>, paths: Set<Seq<char>>) -> bool {
    forall|path: Seq<char>|
        portable(path) ==> (surely_matches(globs, path) ==> #[trigger] paths.contains(path)) && (
        paths.contains(path) ==> may_match(globs, path))
}

/// Some of the globs of a set, in a builder of their own, and how many and how long
/// those are that may be searched for.
struct Part {
    builder: globset::GlobSetBuilder,
    count: u64,
    bytes: u64,
}

impl Part {
    spec fn globs(&self) -> Seq<(Seq<char>, bool)> {
        builder_globs(self.builder)
    }

    spec fn wf(&self) -> bool {
        &&& self.count == searched_globs(self.globs()).len()
        &&& self.bytes == globs_bytes(searched_globs(self.globs()))
        &&& search_size(self.globs()) <= MAX_SEARCH_SIZE
    }

    fn new() -> (r: Part)
        ensures
            r.wf(),
            r.globs() == Seq::<(Seq<char>, bool)>::empty(),
    {
        Part { builder: new_builder(), count: 0, bytes: 0 }
    }

    /// Whether a pattern that may be searched for can be added.
    fn has_room(&self, pattern: &str) -> (r: bool)
        requires
            self.wf(),
            searched(pattern@),
            not_too_long(pattern@),
        ensures
            r == (search_size(self.globs().push((pattern@, true))) <= MAX_SEARCH_SIZE),
    {
        let n: u64 = pattern.as_bytes().len() as u64;
        let ghost g = (pattern@, true);
        let ghost texts = searched_globs(self.globs());
        proof {
            assert(self.globs().push(g).drop_last() =~= self.globs());
            assert(texts.push(g).drop_last() =~= texts);
            lemma_size_bounds(self.count as nat, self.bytes as nat);
            if texts.len() == 0 {
                assert(globs_bytes(texts) == 0);
            }
            assert((self.count + 1) * (self.bytes + n + 4096) <= 0x8000_0000 * 0x1_0000_1000)
                by (nonlinear_arith)
                requires
                    self.count <= 0x7fff_0000,
                    self.bytes <= 0x7fff_0000,
                    n <= 0x7fff_0000,
            ;
        }
        (self.count + 1) * (self.bytes + n + 4096) <= MAX_SEARCH_SIZE
    }

    /// Adds a pattern. `is_text` tells whether it may be searched for.
    fn add_pattern(&mut self, pattern: &str, is_text: bool) -> (r: Result<(), String>)
        requires
            old(self).wf(),
            nested_at_most(pattern@, MAX_DEPTH as nat),
            is_text == searched(pattern@),
            not_too_long(pattern@),
            is_text ==> search_size(old(self).globs().push((pattern@, true))) <= MAX_SEARCH_SIZE,
        ensures
            final(self).wf(),
            starry(pattern@) ==> r is Ok,
            final(self).globs() == match r {
                Ok(_) => old(self).globs().push((pattern@, true)),
                Err(_) => old(self).globs(),
            },
            portable(pattern@) ==> glob_error(pattern@, true) == (match r {
                Ok(_) => None::<Seq<char>>,
                Err(msg) => Some(msg@),
            }),
    {
        let ghost before = self.globs();
        let ghost g = (pattern@, true);
        let ghost texts = searched_globs(before);
        let r: Result<(), String> = add_glob(&mut self.builder, pattern, true);
        if r.is_err() {
            return r;
        }
        proof {
            assert(before.push(g).drop_last() =~= before);
            assert(texts.push(g).drop_last() =~= texts);
            lemma_size_bounds(self.count as nat, self.bytes as nat);
            if texts.len() == 0 {
                assert(globs_bytes(texts) == 0);
            }
        }
        if is_text {
            self.count = self.count + 1;
            self.bytes = self.bytes + pattern.as_bytes().len() as u64;
        }
        r
    }
}

proof fn lemma_size_bounds(count: nat, bytes: nat)
    requires
        count * (bytes + 4096) <= MAX_SEARCH_SIZE,
    ensures
        count <= 0x7fff_0000,
        count > 0 ==> bytes <= 0x7fff_0000,
{
    assert(count <= count * (bytes + 4096)) by (nonlinear_arith);
    if count > 0 {
        assert(bytes <= count * (bytes + 4096)) by (nonlinear_arith)
            requires
                count > 0,
        ;
    }
}

proof fn lemma_size_grows(globs: Seq<(Seq<char>, bool)>, g: (Seq<char>, bool))
    ensures
        search_size(globs) <= search_size(globs.push(g)),
{
    let texts = searched_globs(globs);
    assert(globs.push(g).drop_last() =~= globs);
    assert(texts.push(g).drop_last() =~= texts);
    let n = texts.len();
    let b = globs_bytes(texts);
    let more = bytes_of(g.0);
    assert(n * (b + 4096) <= (n + 1) * (b + more + 4096)) by (nonlinear_arith);
}

proof fn lemma_searched_globs(globs: Seq<(Seq<char>, bool)>)
    ensures
        searched_globs(globs).len() <= globs.len(),
        globs_bytes(searched_globs(globs)) <= globs_bytes(globs),
    decreases globs.len(),
{
    if globs.len() > 0 {
        lemma_searched_globs(globs.drop_last());
        let before = searched_globs(globs.drop_last());
        assert(before.push(globs.last()).drop_last() =~= before);
    }
}

proof fn lemma_small_globs_have_room(globs: Seq<(Seq<char>, bool)>)
    requires
        are_small(globs),
    ensures
        search_size(globs) <= MAX_SEARCH_SIZE,
{
    lemma_searched_globs(globs);
    let n = searched_globs(globs).len();
    let b = globs_bytes(searched_globs(globs));
    assert(n * (b + 4096) <= 8192 * 12288) by (nonlinear_arith)
        requires
            n <= 8192,
            b <= 8192,
    ;
}

spec fn more_globs(more: Seq<Part>) -> Seq<Seq<(Seq<char>, bool)>> {
    Seq::new(more.len(), |k: int| more[k].globs())
}

/// Whether a glob is in one of several parts.
spec fn is_among(parts: Seq<Seq<(Seq<char>, bool)>>, g: (Seq<char>, bool)) -> bool {
    exists|k: int| 0 <= k < parts.len() && (#[trigger] parts[k]).contains(g)
}

/// Whether parts hold the same globs as a sequence.
spec fn share(
    first: Seq<(Seq<char>, bool)>,
    more: Seq<Seq<(Seq<char>, bool)>>,
    globs: Seq<(Seq<char>, bool)>,
) -> bool {
    &&& forall|i: int|
        0 <= i < globs.len() ==> first.contains(#[trigger] globs[i]) || is_among(more, globs[i])
    &&& forall|j: int| 0 <= j < first.len() ==> globs.contains(#[trigger] first[j])
    &&& forall|k: int, j: int|
        0 <= k < more.len() && 0 <= j < more[k].len() ==> globs.contains(#[trigger] more[k][j])
}

/// Globs that are to be put together. Those that may be searched for are spread over
/// several sets where one would become too large; all others are in the first.
pub struct GlobList {
    first: Part,
    more: Vec<Part>,
    added: Ghost<Seq<(Seq<char>, bool)>>,
}

impl View for GlobList {
    type V = Seq<(Seq<char>, bool)>;

    /// The globs that were added, in their order.
    closed spec fn view(&self) -> Seq<(Seq<char>, bool)> {
        self.added@
    }
}

impl GlobList {
    /// The parts hold the globs that were added. As long as they are not too large
    /// for one set they are in one.
    pub closed spec fn wf(&self) -> bool {
        &&& self.first.wf()
        &&& forall|k: int| 0 <= k < self.more@.len() ==> (#[trigger] self.more@[k]).wf()
        &&& share(self.first.globs(), more_globs(self.more@), self@)
        &&& self.more@.len() == 0 ==> self.first.globs() == self@
        &&& self.more@.len() > 0 ==> search_size(self@) > MAX_SEARCH_SIZE
    }

    /// No globs.
    pub fn new() -> (r: GlobList)
        ensures
            r.wf(),
            r@ == Seq::<(Seq<char>, bool)>::empty(),
    {
        GlobList { first: Part::new(), more: Vec::new(), added: Ghost(Seq::empty()) }
    }

    /// Adds a glob in which `*` and `?` stop at `/`. A pattern that `globset` refuses
    /// changes nothing, and the result is the text of the error.
    pub fn add_pattern(&mut self, pattern: &str) -> (r: Result<(), String>)
        requires
            old(self).wf(),
            nested_at_most(pattern@, MAX_DEPTH as nat),
            not_too_long(pattern@),
        ensures
            final(self).wf(),
            starry(pattern@) ==> r is Ok,
            final(self)@ == match r {
                Ok(_) => old(self)@.push((pattern@, true)),
                Err(_) => old(self)@,
            },
            portable(pattern@) ==> glob_error(pattern@, true) == (match r {
                Ok(_) => None::<Seq<char>>,
                Err(msg) => Some(msg@),
            }),
    {
        let ghost g = (pattern@, true);
        let ghost all = self@;
        let ghost first = self.first.globs();
        let ghost more = more_globs(self.more@);
        let is_text: bool = may_be_searched(pattern);
        proof {
            lemma_size_grows(all, g);
            assert(first.push(g).drop_last() =~= first);
            assert(all.push(g).drop_last() =~= all);
        }
        if !is_text || self.first.has_room(pattern) {
            let r: Result<(), String> = self.first.add_pattern(pattern, is_text);
            proof {
                if r is Ok {
                    self.added@ = all.push(g);
                    lemma_share_first(first, more, all, g);
                }
            }
            return r;
        }
        let n: usize = self.more.len();
        if n > 0 && self.more[n - 1].has_room(pattern) {
            let mut part: Part = self.more.pop().unwrap();
            let ghost rest = self.more@;
            let ghost last = part.globs();
            assert(more_globs(rest) =~= more.drop_last());
            assert(last == more.last());
            let r: Result<(), String> = part.add_pattern(pattern, is_text);
            let ghost now = part.globs();
            self.more.push(part);
            assert(more_globs(self.more@) =~= more.drop_last().push(now));
            proof {
                assert(more.drop_last().push(last) =~= more);
                if r is Ok {
                    self.added@ = all.push(g);
                    lemma_share_last(first, more.drop_last(), last, all, g);
                }
            }
            return r;
        }
        let mut part: Part = Part::new();
        proof {
            let one = Seq::<(Seq<char>, bool)>::empty().push(g);
            assert(one.drop_last() =~= Seq::empty());
            assert(searched_globs(one) =~= one);
            assert(search_size(one) == bytes_of(g.0) + 4096);
        }
        let r: Result<(), String> = part.add_pattern(pattern, is_text);
        if r.is_err() {
            return r;
        }
        let ghost now = part.globs();
        self.more.push(part);
        assert(more_globs(self.more@) =~= more.push(now));
        proof {
            self.added@ = all.push(g);
            let none = Seq::<(Seq<char>, bool)>::empty();
            lemma_share_empty(first, more, all);
            lemma_share_last(first, more, none, all, g);
        }
        r
    }

    /// Puts the globs together. The result is the text of the error where `globset`
    /// would not.
    pub fn build(&self) -> (r: Result<GlobSets, String>)
        requires
            self.wf(),
        ensures
            all_simple(self@) || are_small(self@) ==> r is Ok,
            r matches Ok(sets) ==> accepts(self@, sets@),
    {
        let ghost all = self@;
        let ghost first = self.first.globs();
        let ghost more = more_globs(self.more@);
        let mut sets: Vec<globset::GlobSet> = Vec::new();
        proof {
            if are_small(all) {
                lemma_small_globs_have_room(all);
            }
            if all_simple(all) {
                lemma_part_is_simple(first, all);
            }
        }
        sets.push(build_set(&self.first.builder)?);
        let mut k: usize = 0;
        while k < self.more.len()
            invariant
                self.wf(),
                all == self@,
                first == self.first.globs(),
                more == more_globs(self.more@),
                k <= self.more@.len(),
                sets@.len() == k + 1,
                is_set_of(sets@[0], first),
                forall|j: int| 0 <= j < k ==> is_set_of(#[trigger] sets@[j + 1], more[j]),
            decreases self.more@.len() - k,
        {
            let ghost before = sets@;
            assert(more[k as int] == self.more@[k as int].globs());
            proof {
                if are_small(all) {
                    lemma_small_globs_have_room(all);
                }
                if all_simple(all) {
                    assert forall|j: int| 0 <= j < more[k as int].len() implies all.contains(
                        #[trigger] more[k as int][j],
                    ) by {}
                    lemma_part_is_simple(more[k as int], all);
                }
            }
            sets.push(build_set(&self.more[k].builder)?);
            assert forall|j: int| 0 <= j < k + 1 implies is_set_of(
                #[trigger] sets@[j + 1],
                more[j],
            ) by {
                if j < k {
                    assert(sets@[j + 1] == before[j + 1]);
                }
            }
            k = k + 1;
        }
        let r: GlobSets = GlobSets { sets };
        proof {
            lemma_sets_accept(first, more, all, r);
        }
        Ok(r)
    }
}

proof fn lemma_part_is_simple(part: Seq<(Seq<char>, bool)>, all: Seq<(Seq<char>, bool)>)
    requires
        all_simple(all),
        forall|j: int| 0 <= j < part.len() ==> all.contains(#[trigger] part[j]),
    ensures
        all_simple(part),
{
    assert forall|j: int| 0 <= j < part.len() implies simple_glob((#[trigger] part[j]).0) by {
        let i = choose|i: int| 0 <= i < all.len() && all[i] == part[j];
        assert(simple_glob(all[i].0));
    }
}

proof fn lemma_contains_push<A>(s: Seq<A>, a: A)
    ensures
        s.push(a).contains(a),
        forall|x: A| s.contains(x) ==> s.push(a).contains(x),
{
    assert(s.push(a)[s.len() as int] == a);
    assert forall|x: A| s.contains(x) implies s.push(a).contains(x) by {
        let i = choose|i: int| 0 <= i < s.len() && s[i] == x;
        assert(s.push(a)[i] == x);
    }
}

proof fn lemma_share_first(
    first: Seq<(Seq<char>, bool)>,
    more: Seq<Seq<(Seq<char>, bool)>>,
    globs: Seq<(Seq<char>, bool)>,
    g: (Seq<char>, bool),
)
    requires
        share(first, more, globs),
    ensures
        share(first.push(g), more, globs.push(g)),
{
    let (a, b) = (first.push(g), globs.push(g));
    lemma_contains_push(first, g);
    lemma_contains_push(globs, g);
    assert forall|i: int| 0 <= i < b.len() implies a.contains(#[trigger] b[i]) || is_among(
        more,
        b[i],
    ) by {
        if i < globs.len() {
            assert(b[i] == globs[i]);
        }
    }
    assert forall|j: int| 0 <= j < a.len() implies b.contains(#[trigger] a[j]) by {
        if j < first.len() {
            assert(a[j] == first[j]);
        }
    }
}

proof fn lemma_share_empty(
    first: Seq<(Seq<char>, bool)>,
    more: Seq<Seq<(Seq<char>, bool)>>,
    globs: Seq<(Seq<char>, bool)>,
)
    requires
        share(first, more, globs),
    ensures
        share(first, more.push(Seq::empty()), globs),
{
    let parts = more.push(Seq::empty());
    assert forall|i: int| 0 <= i < globs.len() implies first.contains(#[trigger] globs[i])
        || is_among(parts, globs[i]) by {
        if is_among(more, globs[i]) {
            let k = choose|k: int| 0 <= k < more.len() && (#[trigger] more[k]).contains(globs[i]);
            assert(parts[k].contains(globs[i]));
        }
    }
    assert forall|k: int, j: int|
        0 <= k < parts.len() && 0 <= j < parts[k].len() implies globs.contains(
        #[trigger] parts[k][j],
    ) by {
        assert(parts[k] == more[k]);
        assert(globs.contains(more[k][j]));
    }
}

proof fn lemma_share_last(
    first: Seq<(Seq<char>, bool)>,
    rest: Seq<Seq<(Seq<char>, bool)>>,
    last: Seq<(Seq<char>, bool)>,
    globs: Seq<(Seq<char>, bool)>,
    g: (Seq<char>, bool),
)
    requires
        share(first, rest.push(last), globs),
    ensures
        share(first, rest.push(last.push(g)), globs.push(g)),
{
    let old_parts = rest.push(last);
    let parts = rest.push(last.push(g));
    let b = globs.push(g);
    let n = rest.len() as int;
    lemma_contains_push(last, g);
    lemma_contains_push(globs, g);
    assert(parts[n] == last.push(g));
    assert(old_parts[n] == last);
    assert forall|i: int| 0 <= i < b.len() implies first.contains(#[trigger] b[i]) || is_among(
        parts,
        b[i],
    ) by {
        if i < globs.len() {
            assert(b[i] == globs[i]);
            if is_among(old_parts, b[i]) {
                let k = choose|k: int|
                    0 <= k < old_parts.len() && (#[trigger] old_parts[k]).contains(b[i]);
                if k < n {
                    assert(parts[k] == old_parts[k]);
                }
                assert(parts[k].contains(b[i]));
            }
        } else {
            assert(parts[n].contains(b[i]));
        }
    }
    assert forall|j: int| 0 <= j < first.len() implies b.contains(#[trigger] first[j]) by {
        assert(globs.contains(first[j]));
    }
    assert forall|k: int, j: int|
        0 <= k < parts.len() && 0 <= j < parts[k].len() implies b.contains(
        #[trigger] parts[k][j],
    ) by {
        if k < n {
            assert(parts[k] == old_parts[k]);
            assert(globs.contains(old_parts[k][j]));
        } else if j < last.len() {
            assert(parts[k][j] == last[j]);
            assert(globs.contains(old_parts[n][j]));
        }
    }
}

/// Whether a set accepts what globs accept.
spec fn is_set_of(set: globset::GlobSet, globs: Seq<(Seq<char>, bool)>) -> bool {
    accepts(globs, set_paths(set))
}

/// Sets of globs, which accept what one of them accepts.
pub struct GlobSets {
    sets: Vec<globset::GlobSet>,
}

impl View for GlobSets {
    type V = Set<Seq<char>>;

    /// The paths that are accepted.
    closed spec fn view(&self) -> Set<Seq<char>> {
        Set::new(|path: Seq<char>| self.has(path))
    }
}

impl GlobSets {
    spec fn has(&self, path: Seq<char>) -> bool {
        exists|k: int| 0 <= k < self.sets@.len() && set_paths(#[trigger] self.sets@[k]).contains(path)
    }

    /// Tells whether a path is accepted.
    pub fn is_match(&self, path: &str) -> (r: bool)
        ensures
            r == self@.contains(path@),
    {
        let mut k: usize = 0;
        while k < self.sets.len()
            invariant
                k <= self.sets@.len(),
                forall|j: int| 0 <= j < k ==> !set_paths(#[trigger] self.sets@[j]).contains(path@),
            decreases self.sets@.len() - k,
        {
            if set_is_match(&self.sets[k], path) {
                assert(self.has(path@));
                return true;
            }
            k = k + 1;
        }
        assert(!self.has(path@));
        false
    }
}

proof fn lemma_sets_accept(
    first: Seq<(Seq<char>, bool)>,
    more: Seq<Seq<(Seq<char>, bool)>>,
    globs: Seq<(Seq<char>, bool)>,
    r: GlobSets,
)
    requires
        share(first, more, globs),
        r.sets@.len() == more.len() + 1,
        is_set_of(r.sets@[0], first),
        forall|j: int| 0 <= j < more.len() ==> is_set_of(#[trigger] r.sets@[j + 1], more[j]),
    ensures
        accepts(globs, r@),
{
    assert forall|path: Seq<char>| portable(path) implies (surely_matches(globs, path)
        ==> #[trigger] r@.contains(path)) && (r@.contains(path) ==> may_match(globs, path)) by {
        if surely_matches(globs, path) {
            let i = choose|i: int|
                0 <= i < globs.len() && portable((#[trigger] globs[i]).0) && glob_matches(
                    globs[i].0,
                    globs[i].1,
                    path,
                );
            if first.contains(globs[i]) {
                let j = choose|j: int| 0 <= j < first.len() && first[j] == globs[i];
                assert(surely_matches(first, path));
                assert(set_paths(r.sets@[0]).contains(path));
            } else {
                let k = choose|k: int|
                    0 <= k < more.len() && (#[trigger] more[k]).contains(globs[i]);
                let j = choose|j: int| 0 <= j < more[k].len() && more[k][j] == globs[i];
                assert(surely_matches(more[k], path));
                assert(is_set_of(r.sets@[k + 1], more[k]));
                assert(set_paths(r.sets@[k + 1]).contains(path));
            }
            assert(r.has(path));
        }
        if r@.contains(path) {
            assert(r.has(path));
            let n = choose|n: int|
                0 <= n < r.sets@.len() && set_paths(#[trigger] r.sets@[n]).contains(path);
            if n == 0 {
                let j = choose|j: int|
                    0 <= j < first.len() && (!portable((#[trigger] first[j]).0) || glob_matches(
                        first[j].0,
                        first[j].1,
                        path,
                    ));
                assert(may_match(first, path));
                let i = choose|i: int| 0 <= i < globs.len() && globs[i] == first[j];
                assert(globs.contains(first[j]));
                assert(globs[i].0 == first[j].0);
            } else {
                let part = more[n - 1];
                assert(is_set_of(r.sets@[(n - 1) + 1], part));
                assert(may_match(part, path));
                let j = choose|j: int|
                    0 <= j < part.len() && (!portable((#[trigger] part[j]).0) || glob_matches(
                        part[j].0,
                        part[j].1,
                        path,
                    ));
                assert(globs.contains(more[n - 1][j]));
                let i = choose|i: int| 0 <= i < globs.len() && globs[i] == part[j];
                assert(globs[i].0 == part[j].0);
            }
        }
    }
}

} // verus!
