//! What holds of creating a directory: every part of the path is tried, parents
//! first, and doing it again changes nothing.

use vstd::prelude::*;

use crate::device;
use crate::error::ErrorView;
use crate::python;
use crate::remote;
use crate::scripts;
use crate::session::Output;
use crate::text;
use crate::transfer_laws;

verus! {

// ---------------------------------------------------------------------------
// What the script tries
// ---------------------------------------------------------------------------

/// The parts of a path between its slashes, as `split('/')` gives them.
pub open spec fn split(p: Seq<char>) -> Seq<Seq<char>>
    decreases p.len(),
{
    if p.len() == 0 {
        seq![Seq::empty()]
    } else {
        let before = split(p.drop_last());
        if p.last() == '/' {
            before.push(Seq::empty())
        } else {
            before.drop_last().push(before.last().push(p.last()))
        }
    }
}

/// Parts with slashes in between, as `'/'.join` gives them.
pub open spec fn join(parts: Seq<Seq<char>>) -> Seq<char>
    decreases parts.len(),
{
    if parts.len() == 0 {
        Seq::empty()
    } else if parts.len() == 1 {
        parts[0]
    } else {
        join(parts.drop_last()) + "/"@ + parts.last()
    }
}

/// A directory, or the root in place of an empty path.
pub open spec fn or_root(d: Seq<char>) -> Seq<char> {
    if d.len() == 0 {
        "/"@
    } else {
        d
    }
}

/// The directories that the loop of the script makes for a path: for each `i` from
/// one on, its first `i` parts.
pub open spec fn tried(p: Seq<char>) -> Seq<Seq<char>> {
    Seq::new(split(p).len(), |i: int| or_root(join(split(p).take(i + 1))))
}

/// The directories that a script tries to make, if it is one that creates a
/// directory.
pub open spec fn tried_by(script: Seq<char>) -> Option<Seq<Seq<char>>> {
    match transfer_laws::between(
        script,
        "import os\np="@,
        "\nfor i in range(1,len(p.split('/'))+1):\n d='/'.join(p.split('/')[:i]) or '/'\n try: os.mkdir(d)\n except: pass"@,
    ) {
        Some(literal) => match python::read_str(literal) {
            Some(path) => Some(tried(path)),
            None => None,
        },
        None => None,
    }
}

/// Where the slashes of a path are.
pub open spec fn slashes(p: Seq<char>) -> Seq<int>
    decreases p.len(),
{
    if p.len() == 0 {
        Seq::empty()
    } else if p.last() == '/' {
        slashes(p.drop_last()).push(p.len() - 1)
    } else {
        slashes(p.drop_last())
    }
}

/// Where the parts of a path end: at its slashes, and at its own end.
pub open spec fn ends(p: Seq<char>) -> Seq<int> {
    slashes(p).push(p.len() as int)
}

proof fn lemma_slashes(p: Seq<char>)
    ensures
        forall|i: int|
            0 <= i < slashes(p).len() ==> 0 <= #[trigger] slashes(p)[i] < p.len()
                && p[slashes(p)[i]] == '/',
        forall|i: int, j: int|
            0 <= i < j < slashes(p).len() ==> #[trigger] slashes(p)[i] < #[trigger] slashes(p)[j],
    decreases p.len(),
{
    if p.len() > 0 {
        let q = p.drop_last();
        lemma_slashes(q);
        assert forall|i: int| 0 <= i < slashes(p).len() implies 0 <= #[trigger] slashes(p)[i]
            < p.len() && p[slashes(p)[i]] == '/' by {
            if i < slashes(q).len() {
                assert(slashes(p)[i] == slashes(q)[i]);
            }
        }
        assert forall|i: int, j: int| 0 <= i < j < slashes(p).len() implies #[trigger] slashes(p)[i]
            < #[trigger] slashes(p)[j] by {
            assert(slashes(p)[i] == slashes(q)[i]);
            if j < slashes(q).len() {
                assert(slashes(p)[j] == slashes(q)[j]);
            }
        }
    }
}

proof fn lemma_split(p: Seq<char>)
    ensures
        split(p).len() == ends(p).len(),
        join(split(p)) == p,
        forall|i: int|
            0 <= i < split(p).len() ==> join(#[trigger] split(p).take(i + 1)) == p.take(ends(p)[i]),
    decreases p.len(),
{
    let s = split(p);
    if p.len() == 0 {
        assert(s.take(1) =~= s);
        assert(p.take(0) =~= p);
        assert(s[0] =~= p);
    } else {
        let q = p.drop_last();
        let t = split(q);
        lemma_split(q);
        lemma_slashes(q);
        reveal_strlit("/");
        assert(t.take(t.len() as int) =~= t);
        if p.last() == '/' {
            assert(s.drop_last() =~= t);
            assert(join(s) =~= q + "/"@);
            assert(q + "/"@ =~= p);
            assert forall|i: int| 0 <= i < s.len() implies join(#[trigger] s.take(i + 1))
                == p.take(ends(p)[i]) by {
                if i < t.len() {
                    assert(s.take(i + 1) =~= t.take(i + 1));
                    assert(ends(p)[i] == ends(q)[i]);
                    assert(p.take(ends(p)[i]) =~= q.take(ends(q)[i]));
                } else {
                    assert(s.take(i + 1) =~= s);
                    assert(p.take(p.len() as int) =~= p);
                }
            }
        } else {
            assert(s.drop_last() =~= t.drop_last());
            assert(join(s) =~= join(t).push(p.last())) by {
                if t.len() == 1 {
                    assert(s[0] == t[0].push(p.last()));
                }
            }
            assert(q.push(p.last()) =~= p);
            assert forall|i: int| 0 <= i < s.len() implies join(#[trigger] s.take(i + 1))
                == p.take(ends(p)[i]) by {
                if i < t.len() - 1 {
                    assert(s.take(i + 1) =~= t.take(i + 1));
                    assert(ends(p)[i] == ends(q)[i]);
                    assert(p.take(ends(p)[i]) =~= q.take(ends(q)[i]));
                } else {
                    assert(s.take(i + 1) =~= s);
                    assert(p.take(p.len() as int) =~= p);
                }
            }
        }
    }
}

/// Creating a directory tries every prefix of its path that ends before a slash,
/// the shorter ones first, and the path itself last. The empty prefix of an absolute
/// path stands for the root.
pub proof fn law_mkdir_tries_every_prefix(path: Seq<char>)
    ensures
        tried_by(scripts::mkdir_script(path)) == Some(tried(path)),
        tried(path).len() == ends(path).len(),
        forall|i: int|
            0 <= i < tried(path).len() ==> #[trigger] tried(path)[i] == or_root(
                path.take(ends(path)[i]),
            ),
        tried(path).last() == or_root(path),
        forall|i: int, j: int|
            0 <= i < j < ends(path).len() ==> #[trigger] ends(path)[i] < #[trigger] ends(path)[j],
        forall|k: int|
            0 <= k < path.len() && path[k] == '/' ==> #[trigger] slashes(path).contains(k),
{
    reveal_strlit("import os\np=");
    let head = "import os\np="@;
    let tail =
        "\nfor i in range(1,len(p.split('/'))+1):\n d='/'.join(p.split('/')[:i]) or '/'\n try: os.mkdir(d)\n except: pass"@;
    let script = scripts::mkdir_script(path);
    let literal = python::str_literal(path);
    assert(script.take(head.len() as int) =~= head);
    assert(script.skip(script.len() - tail.len()) =~= tail);
    assert(script.subrange(head.len() as int, script.len() - tail.len()) =~= literal);
    python::law_str_literal_reads_back(path);
    lemma_split(path);
    lemma_slashes(path);
    lemma_slashes_complete(path);
    assert forall|i: int| 0 <= i < tried(path).len() implies #[trigger] tried(path)[i] == or_root(
        path.take(ends(path)[i]),
    ) by {
        assert(join(split(path).take(i + 1)) == path.take(ends(path)[i]));
    }
    assert(path.take(path.len() as int) =~= path);
}

proof fn lemma_slashes_complete(p: Seq<char>)
    ensures
        forall|k: int| 0 <= k < p.len() && p[k] == '/' ==> #[trigger] slashes(p).contains(k),
    decreases p.len(),
{
    if p.len() > 0 {
        let q = p.drop_last();
        lemma_slashes_complete(q);
        assert forall|k: int| 0 <= k < p.len() && p[k] == '/' implies #[trigger] slashes(
            p,
        ).contains(k) by {
            if k < q.len() {
                assert(q[k] == p[k]);
                assert(slashes(q).contains(k));
                let i = choose|i: int| 0 <= i < slashes(q).len() && slashes(q)[i] == k;
                assert(slashes(p)[i] == k);
            } else {
                assert(slashes(p)[slashes(p).len() - 1] == k);
            }
        }
    }
}

// ---------------------------------------------------------------------------
// What becomes of the directories of a device
// ---------------------------------------------------------------------------

/// The directories and files of a device.
pub struct Places {
    pub dirs: Set<Seq<char>>,
    pub files: Set<Seq<char>>,
}

/// A directory without slashes at its end.
pub open spec fn place(d: Seq<char>) -> Seq<char> {
    or_root(text::trimmed_end_of(d, '/'))
}

/// The place that a place is in.
pub open spec fn above(k: Seq<char>) -> Seq<char> {
    match remote::before_last_slash(k) {
        Some(d) => place(d),
        None => Seq::empty(),
    }
}

/// What `os.mkdir` does: it fails where the directory or a file is there, and where
/// the directory to put it in is not.
pub open spec fn made(t: Places, d: Seq<char>) -> Option<Places> {
    let k = place(d);
    if t.dirs.contains(k) || t.files.contains(k) || !t.dirs.contains(above(k)) {
        None
    } else {
        Some(Places { dirs: t.dirs.insert(k), files: t.files })
    }
}

/// A try that passes over a failure.
pub open spec fn after_try(t: Places, d: Seq<char>) -> Places {
    match made(t, d) {
        Some(u) => u,
        None => t,
    }
}

/// Several tries, one after the other.
pub open spec fn after_tries(t: Places, ds: Seq<Seq<char>>) -> Places
    decreases ds.len(),
{
    if ds.len() == 0 {
        t
    } else {
        after_try(after_tries(t, ds.drop_last()), ds.last())
    }
}

proof fn lemma_trim(s: Seq<char>)
    ensures
        text::trimmed_end_of(s, '/').len() <= s.len(),
        text::trimmed_end_of(s, '/') == s.take(text::trimmed_end_of(s, '/').len() as int),
        text::trimmed_end_of(s, '/').len() > 0 ==> text::trimmed_end_of(s, '/').last() != '/',
        forall|j: int|
            0 <= j < s.len() && #[trigger] s[j] != '/' ==> j < text::trimmed_end_of(s, '/').len(),
    decreases s.len(),
{
    if s.len() > 0 && s.last() == '/' {
        let q = s.drop_last();
        lemma_trim(q);
        let t = text::trimmed_end_of(q, '/');
        assert(s.take(t.len() as int) =~= q.take(t.len() as int));
        assert forall|j: int| 0 <= j < s.len() && #[trigger] s[j] != '/' implies j < t.len() by {
            assert(q[j] == s[j]);
        }
    } else {
        assert(s.take(s.len() as int) =~= s);
    }
}

proof fn lemma_place_grows(p: Seq<char>, a: int, b: int)
    requires
        0 <= a <= b <= p.len(),
    ensures
        place(or_root(p.take(a))).len() <= place(or_root(p.take(b))).len(),
{
    reveal_strlit("/");
    lemma_place_of_or_root(p.take(a));
    lemma_place_of_or_root(p.take(b));
    lemma_trim(p.take(a));
    lemma_trim(p.take(b));
    let t = text::trimmed_end_of(p.take(a), '/');
    if t.len() > 0 {
        assert(t.last() == p.take(b)[t.len() - 1]);
    }
}

proof fn lemma_place_of_or_root(s: Seq<char>)
    ensures
        place(or_root(s)) == place(s),
{
    reveal_strlit("/");
    if s.len() == 0 {
        let root = "/"@;
        assert(root.last() == '/');
        assert(root.drop_last() =~= s);
    }
}

proof fn lemma_above_is_shorter(k: Seq<char>)
    requires
        k.len() > 0,
        k.last() != '/',
        k[0] == '/',
    ensures
        above(k).len() < k.len(),
        remote::before_last_slash(k) is Some,
{
    reveal_strlit("/");
    lemma_before_last_slash(k);
    let d = remote::before_last_slash(k)->0;
    lemma_trim(d);
    if d.len() == 0 {
        // Only the root is above, and `k` is longer than it.
        assert(k.len() > 1);
    }
}

proof fn lemma_before_last_slash(k: Seq<char>)
    ensures
        k.len() > 0 && k[0] == '/' ==> remote::before_last_slash(k) is Some,
        remote::before_last_slash(k) matches Some(d) ==> {
            &&& d.len() < k.len()
            &&& d == k.take(d.len() as int)
            &&& k[d.len() as int] == '/'
            &&& forall|j: int| d.len() < j < k.len() ==> k[j] != '/'
        },
    decreases k.len(),
{
    if k.len() > 0 {
        if k.last() == '/' {
            assert(k.drop_last() =~= k.take(k.len() - 1));
        } else {
            let q = k.drop_last();
            lemma_before_last_slash(q);
            if let Some(d) = remote::before_last_slash(q) {
                assert(k.take(d.len() as int) =~= q.take(d.len() as int));
                assert forall|j: int| d.len() < j < k.len() implies k[j] != '/' by {
                    if j < q.len() {
                        assert(q[j] == k[j]);
                    }
                }
            }
            if k.len() > 1 {
                assert(q[0] == k[0]);
            }
        }
    }
}

/// A place below the root ends in no slash and begins with one.
proof fn lemma_place_shape(p: Seq<char>, e: int)
    requires
        p.len() > 0,
        p[0] == '/',
        0 <= e <= p.len(),
    ensures
        place(or_root(p.take(e))) == "/"@ || {
            let k = place(or_root(p.take(e)));
            k.len() > 0 && k[0] == '/' && k.last() != '/'
        },
{
    reveal_strlit("/");
    let s = p.take(e);
    lemma_place_of_or_root(s);
    lemma_trim(s);
}

/// What was tried once can be tried again without a change.
spec fn settled(t: Places, ds: Seq<Seq<char>>) -> bool {
    forall|i: int| 0 <= i < ds.len() ==> made(t, #[trigger] ds[i]) is None
}

proof fn lemma_tries_settle(t: Places, p: Seq<char>, m: int)
    requires
        p.len() > 0,
        p[0] == '/',
        t.dirs.contains("/"@),
        0 <= m <= tried(p).len(),
    ensures
        settled(after_tries(t, tried(p).take(m)), tried(p).take(m)),
        after_tries(t, tried(p).take(m)).dirs.contains("/"@),
        t.dirs.subset_of(after_tries(t, tried(p).take(m)).dirs),
        after_tries(t, tried(p).take(m)).files == t.files,
    decreases m,
{
    if m > 0 {
        law_mkdir_tries_every_prefix(p);
        lemma_slashes(p);
        lemma_tries_settle(t, p, m - 1);
        let ds = tried(p).take(m);
        let before = tried(p).take(m - 1);
        assert(ds.drop_last() =~= before);
        let a = after_tries(t, before);
        let b = after_tries(t, ds);
        let d = tried(p)[m - 1];
        assert(ds.last() == d);
        assert forall|i: int| 0 <= i < ds.len() implies made(b, #[trigger] ds[i]) is None by {
            if i < m - 1 {
                assert(ds[i] == before[i]);
                assert(made(a, before[i]) is None);
                let k = place(ds[i]);
                assert(tried(p)[i] == or_root(p.take(ends(p)[i])));
                assert(tried(p)[m - 1] == or_root(p.take(ends(p)[m - 1])));
                assert(ends(p)[i] < ends(p)[m - 1]);
                lemma_place_grows(p, ends(p)[i], ends(p)[m - 1]);
                lemma_place_shape(p, ends(p)[i]);
                if k != "/"@ {
                    lemma_above_is_shorter(k);
                    assert(above(k) != place(d));
                }
            }
        }
    }
}

proof fn lemma_no_change(t: Places, ds: Seq<Seq<char>>)
    requires
        settled(t, ds),
    ensures
        after_tries(t, ds) == t,
    decreases ds.len(),
{
    if ds.len() > 0 {
        assert forall|i: int| 0 <= i < ds.drop_last().len() implies made(
            t,
            #[trigger] ds.drop_last()[i],
        ) is None by {
            assert(ds.drop_last()[i] == ds[i]);
        }
        lemma_no_change(t, ds.drop_last());
        assert(made(t, ds[ds.len() - 1]) is None);
    }
}

/// Creating a directory a second time changes nothing, whatever the device held
/// before, and neither time is an error: every failure is passed over, so nothing is
/// written to the error output.
pub proof fn law_second_mkdir_changes_nothing(t: Places, path: Seq<char>)
    requires
        path.len() > 0,
        path[0] == '/',
        t.dirs.contains("/"@),
    ensures
        after_tries(after_tries(t, tried(path)), tried(path)) == after_tries(t, tried(path)),
        device::done(
            device::printed(Ok(Output { stdout: Seq::empty(), stderr: Seq::empty() })),
        ) == Ok::<(), ErrorView>(()),
{
    let n = tried(path).len() as int;
    assert(tried(path).take(n) =~= tried(path));
    lemma_tries_settle(t, path, n);
    lemma_no_change(after_tries(t, tried(path)), tried(path));
}

proof fn lemma_all_made(t: Places, p: Seq<char>, m: int)
    requires
        p.len() > 0,
        p[0] == '/',
        t.dirs.contains("/"@),
        forall|i: int| 0 <= i < tried(p).len() ==> !t.files.contains(place(#[trigger] tried(p)[i])),
        0 <= m <= tried(p).len(),
    ensures
        forall|i: int|
            0 <= i < m ==> after_tries(t, tried(p).take(m)).dirs.contains(
                place(#[trigger] tried(p)[i]),
            ),
        t.dirs.subset_of(after_tries(t, tried(p).take(m)).dirs),
        after_tries(t, tried(p).take(m)).files == t.files,
    decreases m,
{
    if m > 0 {
        law_mkdir_tries_every_prefix(p);
        lemma_slashes(p);
        lemma_all_made(t, p, m - 1);
        let ds = tried(p).take(m);
        assert(ds.drop_last() =~= tried(p).take(m - 1));
        let a = after_tries(t, ds.drop_last());
        let d = tried(p)[m - 1];
        let s = p.take(ends(p)[m - 1]);
        assert(ds.last() == d);
        assert(d == or_root(s));
        lemma_place_of_or_root(s);
        lemma_trim(s);
        if m == 1 {
            lemma_first_end(p);
            assert(s.len() == 0);
            assert(place(d) == "/"@);
        } else {
            let e = ends(p)[m - 2];
            let u = p.take(e);
            assert(tried(p)[m - 2] == or_root(u));
            lemma_place_of_or_root(u);
            assert(a.dirs.contains(place(u)));
            assert(slashes(p)[m - 2] == e);
            assert(p[e] == '/');
            lemma_no_slash_between(p, m - 1);
            if ends(p)[m - 1] == e + 1 {
                // Nothing but the slash was added.
                assert(s.drop_last() =~= u);
                assert(s.last() == '/');
                assert(place(d) == place(u));
            } else {
                let k = text::trimmed_end_of(s, '/');
                assert(s.last() != '/');
                assert(k == s);
                lemma_before_last_slash(s);
                assert(s[0] == '/');
                let up = remote::before_last_slash(s)->0;
                assert(up.len() == e) by {
                    if up.len() < e {
                        assert(s[e] == '/');
                    }
                    if up.len() > e {
                        assert(s[up.len() as int] == p[up.len() as int]);
                    }
                }
                assert(up =~= u);
                assert(above(place(d)) == place(u));
            }
        }
    }
}

proof fn lemma_first_end(p: Seq<char>)
    requires
        p.len() > 0,
        p[0] == '/',
    ensures
        ends(p)[0] == 0,
{
    lemma_slashes(p);
    lemma_slashes_complete(p);
    assert(slashes(p).contains(0));
    let i = choose|i: int| 0 <= i < slashes(p).len() && slashes(p)[i] == 0;
    if i > 0 {
        assert(slashes(p)[0] < slashes(p)[i]);
    }
}

/// Between two ends that follow each other there is no slash.
proof fn lemma_no_slash_between(p: Seq<char>, i: int)
    requires
        0 < i < ends(p).len(),
    ensures
        forall|k: int| ends(p)[i - 1] < k < ends(p)[i] ==> p[k] != '/',
{
    lemma_slashes(p);
    lemma_slashes_complete(p);
    assert forall|k: int| ends(p)[i - 1] < k < ends(p)[i] implies p[k] != '/' by {
        if p[k] == '/' {
            assert(0 <= slashes(p)[i - 1]);
            assert(k < p.len());
            assert(slashes(p).contains(k));
            let j = choose|j: int| 0 <= j < slashes(p).len() && slashes(p)[j] == k;
            if j < i - 1 {
                assert(slashes(p)[j] < slashes(p)[i - 1]);
            } else if j >= i {
                assert(ends(p)[i] == slashes(p)[i]);
                if j > i {
                    assert(slashes(p)[i] < slashes(p)[j]);
                }
            }
        }
    }
}

/// After a directory was created it is there, and so are all directories above it,
/// whichever of them the device held before. No file may stand in their place.
pub proof fn law_mkdir_creates_the_path(t: Places, path: Seq<char>)
    requires
        path.len() > 0,
        path[0] == '/',
        t.dirs.contains("/"@),
        forall|i: int|
            0 <= i < tried(path).len() ==> !t.files.contains(place(#[trigger] tried(path)[i])),
    ensures
        after_tries(t, tried(path)).dirs.contains(place(path)),
        forall|i: int|
            0 <= i < tried(path).len() ==> after_tries(t, tried(path)).dirs.contains(
                place(#[trigger] tried(path)[i]),
            ),
        t.dirs.subset_of(after_tries(t, tried(path)).dirs),
        after_tries(t, tried(path)).files == t.files,
{
    let n = tried(path).len() as int;
    assert(tried(path).take(n) =~= tried(path));
    lemma_all_made(t, path, n);
    law_mkdir_tries_every_prefix(path);
    lemma_place_of_or_root(path);
    assert(tried(path)[n - 1] == tried(path).last());
}

} // verus!
