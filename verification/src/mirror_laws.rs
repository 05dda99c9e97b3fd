//! What the actions of a sync do to the files of a device: each successful step writes
//! or removes the file that its action names, and all steps together leave exactly the
//! local files.

use vstd::prelude::*;

use crate::device;
use crate::directory_laws;
use crate::error::ErrorView;
use crate::files;
use crate::files::FileView;
use crate::python;
use crate::remote;
use crate::scripts;
use crate::session;
use crate::session::Output;
use crate::session::SessionView;
use crate::sync;
use crate::sync::ActionView;
use crate::sync_laws;
use crate::text;
use crate::text_laws;
use crate::transfer_laws;
use crate::transfer_laws::Files;
use crate::unicode;

verus! {

// ---------------------------------------------------------------------------
// What scripts do to the files of a device
// ---------------------------------------------------------------------------

/// The path that a script removes, if it is one that removes a file.
pub open spec fn removed_by(script: Seq<char>) -> Option<Seq<char>> {
    match transfer_laws::between(script, "import os; os.remove("@, ")"@) {
        Some(literal) => python::read_str(literal),
        None => None,
    }
}

/// The files of a device after scripts that ran one after the other. Nothing where one
/// of them raises an exception: the file to be removed does not exist.
pub open spec fn effect(f: Map<Seq<char>, Seq<u8>>, all: Seq<Seq<char>>) -> Option<
    Map<Seq<char>, Seq<u8>>,
> {
    if all.len() == 1 && removed_by(all[0]) is Some {
        let path = removed_by(all[0])->0;
        if f.dom().contains(path) {
            Some(f.remove(path))
        } else {
            None
        }
    } else {
        match transfer_laws::run_scripts(Files { files: f, open: None }, all) {
            Some(g) => Some(g.files),
            None => None,
        }
    }
}

/// Whether scripts give a file its content, or remove it, and touch no other file.
pub open spec fn makes(all: Seq<Seq<char>>, path: Seq<char>, content: Option<Seq<u8>>) -> bool {
    forall|f: Map<Seq<char>, Seq<u8>>| #[trigger]
        effect(f, all) == (match content {
            Some(data) => Some(f.insert(path, data)),
            None => if f.dom().contains(path) {
                Some(f.remove(path))
            } else {
                None
            },
        })
}

/// The UTF-8 forms of scripts.
pub open spec fn bytes_of(all: Seq<Seq<char>>) -> Seq<Seq<u8>> {
    Seq::new(all.len(), |i: int| vstd::utf8::encode_utf8(all[i]))
}

/// Whether nothing was written to the error output.
pub open spec fn silent(outs: Seq<Output>) -> bool {
    forall|i: int| 0 <= i < outs.len() ==> (#[trigger] outs[i]).stderr.len() == 0
}

/// One script ran without error output.
pub open spec fn ran_one(pre: SessionView, script: Seq<char>, post: SessionView) -> bool {
    exists|out: Output| #[trigger]
        session::executes(pre, vstd::utf8::encode_utf8(script), post, Ok(out)) && out.stderr.len()
            == 0
}

/// Scripts ran in one session, without error output.
pub open spec fn ran_batch(pre: SessionView, all: Seq<Seq<char>>, post: SessionView) -> bool {
    exists|outs: Seq<Output>| #[trigger]
        session::executes_batch(pre, bytes_of(all), post, Ok(outs)) && silent(outs)
}

/// Scripts ran without error output.
pub open spec fn ran(pre: SessionView, all: Seq<Seq<char>>, post: SessionView) -> bool {
    ran_batch(pre, all, post) || (all.len() == 1 && ran_one(pre, all[0], post))
}

/// A script that creates a directory and its parents was executed, whatever came of it.
pub open spec fn tried_to_make(pre: SessionView, dir: Seq<char>, post: SessionView) -> bool {
    exists|script: Seq<char>, out: Result<Output, ErrorView>| #[trigger]
        session::executes(pre, vstd::utf8::encode_utf8(script), post, out)
            && directory_laws::tried_by(script) == Some(directory_laws::tried(dir))
}

/// Scripts ran after the directory of a file was created.
pub open spec fn ran_in_place(
    pre: SessionView,
    path: Seq<char>,
    all: Seq<Seq<char>>,
    post: SessionView,
) -> bool {
    exists|dir: Seq<char>, m: SessionView| #[trigger]
        tried_to_make(pre, dir, m) && is_dir_of(dir, path) && ran(m, all, post)
}

/// What a step has done: its scripts ran, and give the file its content or remove it.
/// Before a file is written its directory is created.
pub open spec fn step_did(
    pre: SessionView,
    path: Seq<char>,
    content: Option<Seq<u8>>,
    all: Seq<Seq<char>>,
    post: SessionView,
) -> bool {
    &&& makes(all, path, content)
    &&& match content {
        Some(_) => ran_in_place(pre, path, all, post),
        None => ran(pre, all, post),
    }
}

// ---------------------------------------------------------------------------
// Paths
// ---------------------------------------------------------------------------

/// The path of what stands at `rel` below `dir`.
pub open spec fn joined(dir: Seq<char>, rel: Seq<char>) -> Seq<char> {
    dir + "/"@ + rel
}

/// Whether a directory is given as it is, or with slashes behind it.
pub open spec fn names_dir(given: Seq<char>, dir: Seq<char>) -> bool {
    &&& dir.len() > 0 ==> dir.last() != '/'
    &&& exists|n: nat| given == dir + #[trigger] slashes(n)
}

/// Slashes in a row.
pub open spec fn slashes(n: nat) -> Seq<char> {
    Seq::new(n, |i: int| '/')
}

/// Whether a text consists of slashes and dots, a slash first.
pub open spec fn is_separator(s: Seq<char>) -> bool {
    &&& s.len() > 0 ==> s[0] == '/'
    &&& forall|i: int| 0 <= i < s.len() ==> #[trigger] s[i] == '/' || s[i] == '.'
}

/// Whether `dir` is the directory that the file at `path` stands in: behind it come a
/// separator and a name. The root stands for an empty directory.
pub open spec fn is_dir_of(dir: Seq<char>, path: Seq<char>) -> bool {
    exists|d: Seq<char>, sep: Seq<char>, name: Seq<char>| #[trigger]
        splits_into(path, d, sep, name) && (dir == d || (d.len() == 0 && dir == "/"@))
}

/// Whether a path is a directory, a separator with a slash at its end, and a name. Of the
/// separator nothing is left at the end of the directory.
pub open spec fn splits_into(
    path: Seq<char>,
    d: Seq<char>,
    sep: Seq<char>,
    name: Seq<char>,
) -> bool {
    &&& path == d + sep + "/"@ + name
    &&& is_separator(sep)
    &&& d.len() > 0 ==> d.last() != '/'
    &&& d.len() > 1 && d.last() == '.' ==> d[d.len() - 2] != '/'
    &&& !name.contains('/')
}

proof fn lemma_plain_dir(s: Seq<char>)
    ensures
        ({
            let p = remote::plain_dir(s);
            &&& p.len() <= s.len()
            &&& p == s.take(p.len() as int)
            &&& is_separator(s.skip(p.len() as int))
            &&& p.len() > 0 ==> p.last() != '/'
            &&& p.len() > 1 && p.last() == '.' ==> p[p.len() - 2] != '/'
        }),
    decreases s.len(),
{
    let p = remote::plain_dir(s);
    let t = if s.len() > 0 && s.last() == '/' {
        s.drop_last()
    } else if s.len() > 1 && s.last() == '.' && s[s.len() - 2] == '/' {
        s.take(s.len() - 2)
    } else {
        s
    };
    if t == s {
        assert(s.take(p.len() as int) =~= p);
    } else {
        lemma_plain_dir(t);
        assert(t.take(p.len() as int) =~= s.take(p.len() as int));
        let q = t.skip(p.len() as int);
        let r = s.skip(p.len() as int);
        assert(q =~= r.take(q.len() as int));
        assert forall|i: int| 0 <= i < r.len() implies #[trigger] r[i] == '/' || r[i] == '.' by {
            if i < q.len() {
                assert(r[i] == q[i]);
            }
        }
        if q.len() > 0 {
            assert(r[0] == q[0]);
        }
    }
}

proof fn lemma_last_slash(path: Seq<char>)
    ensures
        match remote::before_last_slash(path) {
            Some(d) => {
                &&& d.len() < path.len()
                &&& path.take(d.len() as int) == d
                &&& path[d.len() as int] == '/'
                &&& !path.skip(d.len() as int + 1).contains('/')
            },
            None => !path.contains('/'),
        },
    decreases path.len(),
{
    if path.len() > 0 {
        let q = path.drop_last();
        if path.last() == '/' {
            assert(path.take(q.len() as int) =~= q);
        } else {
            lemma_last_slash(q);
            match remote::before_last_slash(path) {
                Some(d) => {
                    assert(path.take(d.len() as int) =~= q.take(d.len() as int));
                    let t = path.skip(d.len() as int + 1);
                    let u = q.skip(d.len() as int + 1);
                    assert forall|i: int| 0 <= i < t.len() implies t[i] != '/' by {
                        if i < u.len() {
                            assert(t[i] == u[i]);
                            assert(u.contains(u[i]));
                        }
                    }
                },
                None => {
                    assert forall|i: int| 0 <= i < path.len() implies path[i] != '/' by {
                        if i < q.len() {
                            assert(q[i] == path[i]);
                            assert(q.contains(q[i]));
                        }
                    }
                },
            }
        }
    }
}

/// The parent of a path is the directory that the file stands in. A path without a
/// slash has none.
pub proof fn law_parent_is_the_directory(path: Seq<char>)
    ensures
        match remote::parent(path) {
            Some(dir) => path.contains('/') && is_dir_of(dir, path),
            None => !path.contains('/'),
        },
{
    reveal_strlit("/");
    lemma_last_slash(path);
    match remote::before_last_slash(path) {
        Some(d) => {
            let p = remote::plain_dir(d);
            let sep = d.skip(p.len() as int);
            let name = path.skip(d.len() as int + 1);
            lemma_plain_dir(d);
            assert(path.contains(path[d.len() as int]));
            assert(path =~= p + sep + "/"@ + name);
            assert(splits_into(path, p, sep, name));
            if p.len() == 0 {
                assert(p =~= Seq::<char>::empty());
            }
        },
        None => {},
    }
}

/// Where a path is a directory and a name with one slash in between, its parent is the
/// directory.
pub proof fn law_parent_of_a_plain_path(dir: Seq<char>, name: Seq<char>)
    requires
        dir.len() > 0,
        dir.last() != '/',
        dir.len() > 1 && dir.last() == '.' ==> dir[dir.len() - 2] != '/',
        !name.contains('/'),
    ensures
        remote::parent(joined(dir, name)) == Some(dir),
{
    reveal_strlit("/");
    let path = joined(dir, name);
    lemma_last_slash(path);
    assert(path[dir.len() as int] == '/');
    assert(path.contains(path[dir.len() as int]));
    let d = remote::before_last_slash(path)->0;
    if d.len() > dir.len() {
        assert(path[d.len() as int] == name[d.len() - dir.len() - 1]);
        assert(name.contains(name[d.len() - dir.len() - 1]));
    } else if d.len() < dir.len() {
        let t = path.skip(d.len() as int + 1);
        assert(t[dir.len() - d.len() - 1] == '/');
        assert(t.contains(t[dir.len() - d.len() - 1]));
    }
    assert(d =~= dir);
}

/// The remote path of a file is the directory, a slash and the path of the file below
/// it, with one slash in between whether or not the directory is given with some.
pub proof fn law_remote_path(given: Seq<char>, dir: Seq<char>, rel: Seq<char>)
    requires
        names_dir(given, dir),
    ensures
        remote::child(given, rel) == joined(dir, rel),
{
    let n = choose|n: nat| given == dir + #[trigger] slashes(n);
    text_laws::law_trimming_a_character(dir, '/', n);
}

proof fn lemma_joined_differ(dir: Seq<char>, a: Seq<char>, b: Seq<char>)
    requires
        joined(dir, a) == joined(dir, b),
    ensures
        a == b,
{
    let n = (dir + "/"@).len() as int;
    assert(joined(dir, a).skip(n) =~= a);
    assert(joined(dir, b).skip(n) =~= b);
}

// ---------------------------------------------------------------------------
// One step
// ---------------------------------------------------------------------------

proof fn lemma_remove_script(path: Seq<char>)
    ensures
        removed_by(scripts::remove_script(path)) == Some(path),
        makes(seq![scripts::remove_script(path)], path, None),
{
    reveal_strlit("import os; os.remove(");
    reveal_strlit(")");
    let script = scripts::remove_script(path);
    let literal = python::str_literal(path);
    python::law_str_literal_reads_back(path);
    assert(script.take(21) =~= "import os; os.remove("@);
    assert(script.skip(script.len() - 1) =~= ")"@);
    assert(script.subrange(21, script.len() - 1) =~= literal);
    assert(removed_by(script) == Some(path));
    assert(seq![script][0] == script);
}

proof fn lemma_opening_is_no_removal(path: Seq<char>, rest: Seq<char>)
    ensures
        removed_by(scripts::open_line(path) + rest) is None,
{
    reveal_strlit("import os; os.remove(");
    reveal_strlit("__f=open(");
    let script = scripts::open_line(path) + rest;
    assert(script[0] == '_');
    if script.len() >= 21 {
        assert(script.take(21)[0] == '_');
    }
    assert("import os; os.remove("@[0] == 'i');
}

proof fn lemma_create_script(path: Seq<char>)
    ensures
        makes(seq![scripts::create_script(path)], path, Some(Seq::empty())),
{
    let script = scripts::create_script(path);
    let all = seq![script];
    lemma_opening_is_no_removal(path, "\n"@ + scripts::close_lines());
    assert(script =~= scripts::open_line(path) + ("\n"@ + scripts::close_lines()));
    assert forall|f: Map<Seq<char>, Seq<u8>>| #[trigger] effect(f, all) == Some(
        f.insert(path, Seq::empty()),
    ) by {
        let s = Files { files: f, open: None };
        transfer_laws::law_create_leaves_an_empty_file(s, path);
        assert(all[0] == script);
        assert(all.skip(1).len() == 0);
        reveal_with_fuel(transfer_laws::run_scripts, 2);
    }
}

proof fn lemma_upload_scripts(path: Seq<char>, data: Seq<u8>)
    requires
        data.len() > 0,
    ensures
        makes(scripts::upload(path, data), path, Some(data)),
{
    let all = scripts::upload(path, data);
    let batch = scripts::head(data, scripts::BATCH_BYTES as nat);
    let rest = scripts::tail(data, scripts::BATCH_BYTES as nat);
    let script = scripts::upload_script(path, batch, true, rest.len() == 0);
    let tail = "\n"@ + scripts::upload_script(path, batch, false, rest.len() == 0);
    assert(all[0] == script);
    assert(script =~= scripts::open_line(path) + tail);
    lemma_opening_is_no_removal(path, tail);
    assert forall|f: Map<Seq<char>, Seq<u8>>| #[trigger] effect(f, all) == Some(
        f.insert(path, data),
    ) by {
        transfer_laws::law_upload_leaves_the_data(Files { files: f, open: None }, path, data);
    }
}

proof fn lemma_silent(outs: Seq<Output>)
    requires
        device::first_failure(outs) is Ok,
    ensures
        silent(outs),
    decreases outs.len(),
{
    if outs.len() > 0 {
        lemma_silent(outs.skip(1));
        assert forall|i: int| 0 <= i < outs.len() implies (#[trigger] outs[i]).stderr.len()
            == 0 by {
            if i > 0 {
                assert(outs[i] == outs.skip(1)[i - 1]);
            }
        }
    }
}

/// A write that succeeds has run scripts that leave the data in the file, without error
/// output.
pub proof fn law_write_leaves_the_data(
    pre: SessionView,
    path: Seq<char>,
    data: Seq<u8>,
    post: SessionView,
)
    requires
        device::writes(pre, path, data, post, Ok(())),
    ensures
        exists|all: Seq<Seq<char>>| #[trigger] ran(pre, all, post) && makes(all, path, Some(data)),
{
    if data.len() == 0 {
        let script = scripts::create_script(path);
        let p = choose|p: Result<Seq<char>, ErrorView>| #[trigger]
            device::prints(pre, script, post, p) && Ok::<(), ErrorView>(()) == device::done(p);
        let out = choose|out: Result<Output, ErrorView>| #[trigger]
            device::runs(pre, script, post, out) && p == device::printed(out);
        assert(session::executes(pre, vstd::utf8::encode_utf8(script), post, Ok(out->Ok_0)));
        assert(seq![script][0] == script);
        assert(ran(pre, seq![script], post));
        lemma_create_script(path);
        assert(data =~= Seq::empty());
    } else {
        let all = scripts::upload(path, data);
        let outs = choose|outs: Result<Seq<Output>, ErrorView>| #[trigger]
            session::executes_batch(pre, device::encoded(all), post, outs) && Ok::<(), ErrorView>(())
                == device::batch_done(outs);
        lemma_silent(outs->Ok_0);
        assert(device::encoded(all) =~= bytes_of(all));
        assert(session::executes_batch(pre, bytes_of(all), post, Ok(outs->Ok_0)));
        lemma_upload_scripts(path, data);
        assert(ran(pre, all, post));
    }
}

/// A removal that succeeds has run a script that removes the file, without error output.
pub proof fn law_remove_removes(pre: SessionView, path: Seq<char>, post: SessionView)
    requires
        device::removes(pre, path, post, Ok(())),
    ensures
        exists|all: Seq<Seq<char>>| #[trigger] ran(pre, all, post) && makes(all, path, None),
{
    let script = scripts::remove_script(path);
    let out = choose|out: Result<Output, ErrorView>| #[trigger]
        device::runs(pre, script, post, out) && Ok::<(), ErrorView>(()) == device::removal(
            path,
            out,
        );
    assert(session::executes(pre, vstd::utf8::encode_utf8(script), post, Ok(out->Ok_0)));
    assert(seq![script][0] == script);
    assert(ran(pre, seq![script], post));
    lemma_remove_script(path);
}

/// The content that an action gives its file.
pub open spec fn content_of(a: ActionView, data: Seq<u8>) -> Option<Seq<u8>> {
    if a.action == "upload"@ {
        Some(data)
    } else {
        None
    }
}

/// A step of a sync that succeeds has done what its action says, whatever the path of
/// the file below the directory is: an upload has written the data to the file, after
/// its directory was created, and a deletion has removed the file.
pub proof fn law_step_does_what_the_action_says(
    pre: SessionView,
    given: Seq<char>,
    dir: Seq<char>,
    action: ActionView,
    data: Seq<u8>,
    post: SessionView,
)
    requires
        names_dir(given, dir),
        action.action == "upload"@ || action.action == "delete"@,
        remote::performs(pre, given, action, data, post, Ok(())),
    ensures
        exists|all: Seq<Seq<char>>| #[trigger]
            step_did(
                pre,
                joined(dir, action.path),
                content_of(action, data),
                all,
                post,
            ),
{
    let path = joined(dir, action.path);
    law_remote_path(given, dir, action.path);
    if action.action == "upload"@ {
        reveal_strlit("/");
        assert(path[dir.len() as int] == '/');
        assert(path.contains(path[dir.len() as int]));
        law_parent_is_the_directory(path);
        let parent = remote::parent(path)->0;
        let (m, any) = choose|m: SessionView, any: Result<(), ErrorView>| #[trigger]
            device::makes_dir(pre, parent, m, any) && device::writes(m, path, data, post, Ok(()));
        let script = scripts::mkdir_script(parent);
        let p = choose|p: Result<Seq<char>, ErrorView>| #[trigger]
            device::prints(pre, script, m, p) && any == device::done(p);
        let out = choose|out: Result<Output, ErrorView>| #[trigger]
            device::runs(pre, script, m, out) && p == device::printed(out);
        directory_laws::law_mkdir_tries_every_prefix(parent);
        assert(session::executes(pre, vstd::utf8::encode_utf8(script), m, out));
        assert(tried_to_make(pre, parent, m));
        law_write_leaves_the_data(m, path, data, post);
        let all = choose|all: Seq<Seq<char>>| #[trigger]
            ran(m, all, post) && makes(all, path, Some(data));
        assert(ran_in_place(pre, path, all, post));
        assert(step_did(pre, path, Some(data), all, post));
    } else {
        sync_laws::lemma_action_names();
        law_remove_removes(pre, path, post);
        let all = choose|all: Seq<Seq<char>>| #[trigger]
            ran(pre, all, post) && makes(all, path, None);
        assert(step_did(pre, path, None, all, post));
    }
}

// ---------------------------------------------------------------------------
// Why a step fails
// ---------------------------------------------------------------------------

/// The error that tells an output.
pub open spec fn tells(o: Output, e: ErrorView) -> bool {
    o.stderr.len() > 0 && e == (ErrorView::Execution {
        stdout: unicode::text_of(o.stdout),
        stderr: unicode::text_of(o.stderr),
    })
}

/// A script could not be executed, or wrote error output.
pub open spec fn failed_one(
    pre: SessionView,
    script: Seq<char>,
    post: SessionView,
    e: ErrorView,
) -> bool {
    exists|out: Result<Output, ErrorView>| #[trigger]
        session::executes(pre, vstd::utf8::encode_utf8(script), post, out) && (match out {
            Err(x) => x == e,
            Ok(o) => tells(o, e),
        })
}

/// The first output with error output is the one that an error tells.
pub open spec fn tells_first(outs: Seq<Output>, e: ErrorView) -> bool {
    exists|i: int|
        0 <= i < outs.len() && tells(#[trigger] outs[i], e) && forall|j: int|
            0 <= j < i ==> (#[trigger] outs[j]).stderr.len() == 0
}

/// Scripts could not be executed, or one of them wrote error output.
pub open spec fn failed_batch(
    pre: SessionView,
    all: Seq<Seq<char>>,
    post: SessionView,
    e: ErrorView,
) -> bool {
    exists|outs: Result<Seq<Output>, ErrorView>| #[trigger]
        session::executes_batch(pre, bytes_of(all), post, outs) && (match outs {
            Err(x) => x == e,
            Ok(os) => tells_first(os, e),
        })
}

/// Scripts could not be executed, or wrote error output.
pub open spec fn failed(
    pre: SessionView,
    all: Seq<Seq<char>>,
    post: SessionView,
    e: ErrorView,
) -> bool {
    failed_batch(pre, all, post, e) || (all.len() == 1 && failed_one(pre, all[0], post, e))
}

proof fn lemma_first_failure(outs: Seq<Output>, e: ErrorView)
    requires
        device::first_failure(outs) == Err::<(), ErrorView>(e),
    ensures
        tells_first(outs, e),
    decreases outs.len(),
{
    if outs[0].stderr.len() > 0 {
        assert(tells(outs[0], e));
    } else {
        let rest = outs.skip(1);
        lemma_first_failure(rest, e);
        let i = choose|i: int|
            0 <= i < rest.len() && tells(#[trigger] rest[i], e) && forall|j: int|
                0 <= j < i ==> (#[trigger] rest[j]).stderr.len() == 0;
        assert(outs[i + 1] == rest[i]);
        assert forall|j: int| 0 <= j < i + 1 implies (#[trigger] outs[j]).stderr.len() == 0 by {
            if j > 0 {
                assert(outs[j] == rest[j - 1]);
            }
        }
    }
}

/// A write that fails has tried scripts that leave the data in the file, and its error
/// is that of the execution, or tells the first error output.
pub proof fn law_write_fails_for_a_reason(
    pre: SessionView,
    path: Seq<char>,
    data: Seq<u8>,
    post: SessionView,
    e: ErrorView,
)
    requires
        device::writes(pre, path, data, post, Err(e)),
    ensures
        exists|all: Seq<Seq<char>>| #[trigger]
            failed(pre, all, post, e) && makes(all, path, Some(data)),
{
    if data.len() == 0 {
        let script = scripts::create_script(path);
        let p = choose|p: Result<Seq<char>, ErrorView>| #[trigger]
            device::prints(pre, script, post, p) && Err::<(), ErrorView>(e) == device::done(p);
        let out = choose|out: Result<Output, ErrorView>| #[trigger]
            device::runs(pre, script, post, out) && p == device::printed(out);
        assert(session::executes(pre, vstd::utf8::encode_utf8(script), post, out));
        assert(failed_one(pre, script, post, e));
        assert(seq![script][0] == script);
        assert(failed(pre, seq![script], post, e));
        lemma_create_script(path);
        assert(data =~= Seq::empty());
    } else {
        let all = scripts::upload(path, data);
        let outs = choose|outs: Result<Seq<Output>, ErrorView>| #[trigger]
            session::executes_batch(pre, device::encoded(all), post, outs) && Err::<(), ErrorView>(e)
                == device::batch_done(outs);
        if outs is Ok {
            lemma_first_failure(outs->Ok_0, e);
        }
        assert(device::encoded(all) =~= bytes_of(all));
        assert(session::executes_batch(pre, bytes_of(all), post, outs));
        assert(failed_batch(pre, all, post, e));
        lemma_upload_scripts(path, data);
        assert(failed(pre, all, post, e));
    }
}

/// The removal of a file could not be executed, or wrote error output: where this says
/// that there is no such file the error names the path.
pub open spec fn removal_failed(
    pre: SessionView,
    path: Seq<char>,
    post: SessionView,
    e: ErrorView,
) -> bool {
    exists|script: Seq<char>, out: Result<Output, ErrorView>| #[trigger]
        session::executes(pre, vstd::utf8::encode_utf8(script), post, out) && removed_by(script)
            == Some(path) && (match out {
            Err(x) => x == e,
            Ok(o) => {
                let says = unicode::text_of(o.stderr);
                &&& o.stderr.len() > 0
                &&& if text::has_text(says, "ENOENT"@) || text::has_text(says, "Errno 2"@) {
                    e == ErrorView::Filesystem("not found: "@ + path)
                } else {
                    tells(o, e)
                }
            },
        })
}

/// The write of a file failed after its directory was created.
pub open spec fn write_failed_in_place(
    pre: SessionView,
    path: Seq<char>,
    data: Seq<u8>,
    post: SessionView,
    e: ErrorView,
) -> bool {
    exists|dir: Seq<char>, m: SessionView, all: Seq<Seq<char>>|
        #![trigger tried_to_make(pre, dir, m), failed(m, all, post, e)]
        tried_to_make(pre, dir, m) && is_dir_of(dir, path) && failed(m, all, post, e) && makes(
            all,
            path,
            Some(data),
        )
}

/// A step of a sync fails only where what its action says was tried and failed. Whether
/// the directory of an uploaded file could be created does not matter. An action that is
/// neither an upload nor a deletion does nothing.
pub proof fn law_step_fails_for_a_reason(
    pre: SessionView,
    given: Seq<char>,
    dir: Seq<char>,
    action: ActionView,
    data: Seq<u8>,
    post: SessionView,
    r: Result<(), ErrorView>,
)
    requires
        names_dir(given, dir),
        remote::performs(pre, given, action, data, post, r),
    ensures
        r matches Err(e) ==> {
            let path = joined(dir, action.path);
            ||| action.action == "upload"@ && write_failed_in_place(pre, path, data, post, e)
            ||| action.action == "delete"@ && removal_failed(pre, path, post, e)
        },
        action.action != "upload"@ && action.action != "delete"@ ==> r is Ok && post == pre,
{
    let path = joined(dir, action.path);
    law_remote_path(given, dir, action.path);
    if r is Err {
        let e = r->Err_0;
        if action.action == "upload"@ {
            reveal_strlit("/");
            assert(path[dir.len() as int] == '/');
            assert(path.contains(path[dir.len() as int]));
            law_parent_is_the_directory(path);
            let parent = remote::parent(path)->0;
            let (m, any) = choose|m: SessionView, any: Result<(), ErrorView>| #[trigger]
                device::makes_dir(pre, parent, m, any) && device::writes(m, path, data, post, r);
            let script = scripts::mkdir_script(parent);
            let p = choose|p: Result<Seq<char>, ErrorView>| #[trigger]
                device::prints(pre, script, m, p) && any == device::done(p);
            let out = choose|out: Result<Output, ErrorView>| #[trigger]
                device::runs(pre, script, m, out) && p == device::printed(out);
            directory_laws::law_mkdir_tries_every_prefix(parent);
            assert(session::executes(pre, vstd::utf8::encode_utf8(script), m, out));
            assert(tried_to_make(pre, parent, m));
            law_write_fails_for_a_reason(m, path, data, post, e);
            let all = choose|all: Seq<Seq<char>>| #[trigger]
                failed(m, all, post, e) && makes(all, path, Some(data));
            assert(write_failed_in_place(pre, path, data, post, e));
        } else {
            let script = scripts::remove_script(path);
            let out = choose|out: Result<Output, ErrorView>| #[trigger]
                device::runs(pre, script, post, out) && r == device::removal(path, out);
            lemma_remove_script(path);
            assert(session::executes(pre, vstd::utf8::encode_utf8(script), post, out));
            assert(removal_failed(pre, path, post, e));
        }
    }
}

// ---------------------------------------------------------------------------
// All steps
// ---------------------------------------------------------------------------

/// The files of a device after the scripts of several steps.
pub open spec fn effects(f: Map<Seq<char>, Seq<u8>>, steps: Seq<Seq<Seq<char>>>) -> Option<
    Map<Seq<char>, Seq<u8>>,
>
    decreases steps.len(),
{
    if steps.len() == 0 {
        Some(f)
    } else {
        match effects(f, steps.drop_last()) {
            Some(g) => effect(g, steps.last()),
            None => None,
        }
    }
}

/// Whether the steps of a sync, from each of several moments to the next, did what the
/// actions say.
pub open spec fn steps_did(
    s: Seq<SessionView>,
    dir: Seq<char>,
    actions: Seq<ActionView>,
    contents: Map<Seq<char>, Seq<u8>>,
    steps: Seq<Seq<Seq<char>>>,
) -> bool {
    &&& steps.len() == actions.len()
    &&& forall|i: int|
        0 <= i < actions.len() ==> step_did(
            s[i],
            joined(dir, actions[i].path),
            content_of(actions[i], contents[actions[i].path]),
            #[trigger] steps[i],
            s[i + 1],
        )
}

/// Whether the files of a device below a directory are those of a side, with their
/// sizes.
pub open spec fn holds(
    f: Map<Seq<char>, Seq<u8>>,
    dir: Seq<char>,
    side: Seq<FileView>,
) -> bool {
    &&& forall|rel: Seq<char>|
        f.dom().contains(#[trigger] joined(dir, rel)) <==> sync_laws::has_path(side, rel)
    &&& forall|rel: Seq<char>, n: u64| #[trigger]
        sync_laws::has_file(side, rel, n) ==> f[joined(dir, rel)].len() == n
}

/// Whether two devices have the same file, or none, at a path.
pub open spec fn same_at(
    f: Map<Seq<char>, Seq<u8>>,
    g: Map<Seq<char>, Seq<u8>>,
    path: Seq<char>,
) -> bool {
    &&& f.dom().contains(path) == g.dom().contains(path)
    &&& f.dom().contains(path) ==> f[path] == g[path]
}

/// Whether a path stands below a directory.
pub open spec fn stands_below(dir: Seq<char>, path: Seq<char>) -> bool {
    exists|rel: Seq<char>| path == #[trigger] joined(dir, rel)
}

/// Whether one of several actions names a path.
pub open spec fn named(actions: Seq<ActionView>, rel: Seq<char>) -> bool {
    exists|i: int| 0 <= i < actions.len() && (#[trigger] actions[i]).path == rel
}

/// Where the first steps of a sync have brought the files.
spec fn so_far(
    f: Map<Seq<char>, Seq<u8>>,
    dir: Seq<char>,
    actions: Seq<ActionView>,
    contents: Map<Seq<char>, Seq<u8>>,
    g: Map<Seq<char>, Seq<u8>>,
) -> bool {
    &&& forall|i: int|
        0 <= i < actions.len() ==> {
            let path = joined(dir, (#[trigger] actions[i]).path);
            match content_of(actions[i], contents[actions[i].path]) {
                Some(data) => g.dom().contains(path) && g[path] == data,
                None => !g.dom().contains(path),
            }
        }
    &&& forall|rel: Seq<char>|
        !named(actions, rel) ==> same_at(f, g, #[trigger] joined(dir, rel))
    &&& forall|path: Seq<char>| !stands_below(dir, path) ==> #[trigger] same_at(f, g, path)
}

proof fn lemma_so_far(
    f: Map<Seq<char>, Seq<u8>>,
    dir: Seq<char>,
    actions: Seq<ActionView>,
    contents: Map<Seq<char>, Seq<u8>>,
    steps: Seq<Seq<Seq<char>>>,
)
    requires
        steps.len() == actions.len(),
        forall|i: int|
            0 <= i < actions.len() ==> makes(
                #[trigger] steps[i],
                joined(dir, actions[i].path),
                content_of(actions[i], contents[actions[i].path]),
            ),
        forall|i: int, j: int|
            0 <= i < j < actions.len() ==> (#[trigger] actions[i]).path != (
            #[trigger] actions[j]).path,
        forall|i: int|
            0 <= i < actions.len() && content_of(#[trigger] actions[i], contents[actions[i].path]) is None
                ==> f.dom().contains(joined(dir, actions[i].path)),
    ensures
        effects(f, steps) is Some,
        so_far(f, dir, actions, contents, effects(f, steps)->0),
    decreases steps.len(),
{
    if steps.len() > 0 {
        let before = actions.drop_last();
        let a = actions.last();
        let n = actions.len() - 1;
        let path = joined(dir, a.path);
        assert(actions[n] == a);
        assert forall|i: int| 0 <= i < before.len() implies before[i] == actions[i]
            && steps.drop_last()[i] == steps[i] by {}
        lemma_so_far(f, dir, before, contents, steps.drop_last());
        let h = effects(f, steps.drop_last())->0;
        assert(!named(before, a.path));
        assert(same_at(f, h, path));
        assert(steps.last() == steps[n]);
        assert(makes(steps[n], path, content_of(a, contents[a.path])));
        let g = effect(h, steps.last())->0;
        assert forall|i: int| 0 <= i < actions.len() implies {
            let p = joined(dir, (#[trigger] actions[i]).path);
            match content_of(actions[i], contents[actions[i].path]) {
                Some(data) => g.dom().contains(p) && g[p] == data,
                None => !g.dom().contains(p),
            }
        } by {
            if i < n {
                assert(before[i] == actions[i]);
                if joined(dir, actions[i].path) == path {
                    lemma_joined_differ(dir, actions[i].path, a.path);
                }
            }
        }
        assert forall|rel: Seq<char>| !named(actions, rel) implies same_at(
            f,
            g,
            #[trigger] joined(dir, rel),
        ) by {
            if named(before, rel) {
                let i = choose|i: int| 0 <= i < before.len() && (#[trigger] before[i]).path == rel;
                assert(actions[i].path == rel);
            }
            assert(same_at(f, h, joined(dir, rel)));
            if joined(dir, rel) == path {
                lemma_joined_differ(dir, rel, a.path);
            }
        }
        assert forall|p: Seq<char>| !stands_below(dir, p) implies #[trigger] same_at(f, g, p) by {
            assert(same_at(f, h, p));
            assert(p != path);
        }
    }
}

/// Carrying out every action of a plan, one successful step each, leaves on the device
/// below the synced directory exactly the local files, with their sizes. Those that were
/// missing or had another size have their local content. Nothing else is touched.
#[verifier::rlimit(40)]
pub proof fn law_sync_leaves_the_local_files(
    local: Seq<FileView>,
    remote: Seq<FileView>,
    given: Seq<char>,
    dir: Seq<char>,
    contents: Map<Seq<char>, Seq<u8>>,
    s: Seq<SessionView>,
    f: Map<Seq<char>, Seq<u8>>,
)
    requires
        files::no_twins(local),
        files::no_twins(remote),
        names_dir(given, dir),
        holds(f, dir, remote),
        forall|rel: Seq<char>, n: u64| #[trigger]
            sync_laws::has_file(local, rel, n) ==> contents[rel].len() == n,
        s.len() == sync::plan(local, remote).actions.len() + 1,
        forall|i: int|
            0 <= i < sync::plan(local, remote).actions.len() ==> remote::performs(
                #[trigger] s[i],
                given,
                sync::plan(local, remote).actions[i],
                contents[sync::plan(local, remote).actions[i].path],
                s[i + 1],
                Ok(()),
            ),
    ensures
        exists|steps: Seq<Seq<Seq<char>>>| #[trigger]
            steps_did(s, dir, sync::plan(local, remote).actions, contents, steps) && (match effects(
                f,
                steps,
            ) {
                Some(g) => {
                    &&& holds(g, dir, local)
                    &&& forall|rel: Seq<char>, n: u64| #[trigger]
                        sync_laws::has_file(local, rel, n) && !sync_laws::has_file(remote, rel, n)
                            ==> g[joined(dir, rel)] == contents[rel]
                    &&& forall|path: Seq<char>|
                        !stands_below(dir, path) ==> #[trigger] same_at(f, g, path)
                },
                None => false,
            }),
{
    let actions = sync::plan(local, remote).actions;
    sync_laws::law_plan_is_exact(local, remote);
    sync_laws::law_plan_names_each_path_once(local, remote);
    sync_laws::lemma_action_names();
    let steps = Seq::new(
        actions.len(),
        |i: int|
            choose|all: Seq<Seq<char>>| #[trigger]
                step_did(
                    s[i],
                    joined(dir, actions[i].path),
                    content_of(actions[i], contents[actions[i].path]),
                    all,
                    s[i + 1],
                ),
    );
    assert forall|i: int| 0 <= i < actions.len() implies step_did(
        s[i],
        joined(dir, actions[i].path),
        content_of(actions[i], contents[actions[i].path]),
        #[trigger] steps[i],
        s[i + 1],
    ) by {
        let a = actions[i];
        assert(actions.contains(a));
        assert(sync_laws::is_due(local, remote, a));
        assert(remote::performs(s[i], given, a, contents[a.path], s[i + 1], Ok(())));
        law_step_does_what_the_action_says(s[i], given, dir, a, contents[a.path], s[i + 1]);
    }
    assert forall|i: int|
        0 <= i < actions.len() && content_of(#[trigger] actions[i], contents[actions[i].path]) is None implies f.dom().contains(
        joined(dir, actions[i].path),
    ) by {
        let a = actions[i];
        assert(actions.contains(a));
        assert(sync_laws::is_due(local, remote, a));
        assert(sync_laws::has_path(remote, a.path));
    }
    lemma_so_far(f, dir, actions, contents, steps);
    let g = effects(f, steps)->0;
    assert forall|rel: Seq<char>, n: u64| #[trigger]
        sync_laws::has_file(local, rel, n) implies g.dom().contains(joined(dir, rel)) && g[joined(
        dir,
        rel,
    )].len() == n && (!sync_laws::has_file(remote, rel, n) ==> g[joined(dir, rel)]
        == contents[rel]) by {
        assert(sync_laws::has_path(local, rel));
        if named(actions, rel) {
            let i = choose|i: int| 0 <= i < actions.len() && (#[trigger] actions[i]).path == rel;
            assert(actions.contains(actions[i]));
            assert(sync_laws::is_due(local, remote, actions[i]));
        } else {
            let up = sync::upload_of(FileView { path: rel, size: n });
            if !sync_laws::has_file(remote, rel, n) {
                assert(sync_laws::is_due(local, remote, up));
                assert(actions.contains(up));
                let i = choose|i: int| 0 <= i < actions.len() && actions[i] == up;
                assert(actions[i].path == rel);
            }
            assert(sync_laws::has_path(remote, rel));
            assert(same_at(f, g, joined(dir, rel)));
        }
    }
    assert forall|rel: Seq<char>|
        g.dom().contains(#[trigger] joined(dir, rel)) <==> sync_laws::has_path(local, rel) by {
        if sync_laws::has_path(local, rel) {
            let n = choose|n: u64| sync_laws::has_file(local, rel, n);
            assert(sync_laws::has_file(local, rel, n));
        } else if named(actions, rel) {
            let i = choose|i: int| 0 <= i < actions.len() && (#[trigger] actions[i]).path == rel;
            assert(actions.contains(actions[i]));
            assert(sync_laws::is_due(local, remote, actions[i]));
        } else {
            assert(same_at(f, g, joined(dir, rel)));
            if sync_laws::has_path(remote, rel) {
                let n = choose|n: u64| sync_laws::has_file(remote, rel, n);
                let del = sync::deletion_of(FileView { path: rel, size: n });
                assert(sync_laws::is_due(local, remote, del));
                assert(actions.contains(del));
                let i = choose|i: int| 0 <= i < actions.len() && actions[i] == del;
                assert(actions[i].path == rel);
            }
        }
    }
    assert(steps_did(s, dir, actions, contents, steps));
}

} // verus!
