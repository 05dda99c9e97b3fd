//! What holds of every walk: a file has the same relative path on both sides,
//! excluded names are never entered, and only files that count are found.

use vstd::prelude::*;

use crate::device;
use crate::error::ErrorView;
use crate::files;
use crate::files::FileView;
use crate::remote;
use crate::remote::Answer;
use crate::remote::QueryView;
use crate::remote::Scope;
use crate::remote::Search;
use crate::scripts;
use crate::session::SessionView;
use crate::text;
use crate::walk;
use crate::walk::LocalSearch;
use crate::walk::LocalView;
use crate::walk::PutItemView;

verus! {

// ---------------------------------------------------------------------------
// Paths
// ---------------------------------------------------------------------------

/// The path on the device to which names lead from a directory.
pub open spec fn remote_path(root: Seq<char>, names: Seq<Seq<char>>) -> Seq<char>
    decreases names.len(),
{
    if names.len() == 0 {
        root
    } else {
        remote::child(remote_path(root, names.drop_last()), names.last())
    }
}

/// The relative path to which names lead.
pub open spec fn local_path(names: Seq<Seq<char>>) -> Seq<char>
    decreases names.len(),
{
    if names.len() == 0 {
        Seq::empty()
    } else {
        walk::local_child(local_path(names.drop_last()), names.last())
    }
}

/// Whether a text can be the name of a file.
pub open spec fn is_name(s: Seq<char>) -> bool {
    s.len() > 0 && !s.contains('/')
}

/// Whether all texts can be names of files.
pub open spec fn are_names(names: Seq<Seq<char>>) -> bool {
    forall|i: int| 0 <= i < names.len() ==> is_name(#[trigger] names[i])
}

proof fn lemma_names_prefix(names: Seq<Seq<char>>)
    requires
        are_names(names),
        names.len() > 0,
    ensures
        are_names(names.drop_last()),
        is_name(names.last()),
{
    assert forall|i: int| 0 <= i < names.drop_last().len() implies is_name(
        #[trigger] names.drop_last()[i],
    ) by {
        assert(names.drop_last()[i] == names[i]);
    }
}

proof fn lemma_local_path(names: Seq<Seq<char>>)
    requires
        are_names(names),
        names.len() > 0,
    ensures
        local_path(names).len() > 0,
        local_path(names).last() != '/',
{
    lemma_names_prefix(names);
    let name = names.last();
    assert(name.contains(name.last()));
    assert(local_path(names).last() == name.last());
}

proof fn lemma_remote_path(root: Seq<char>, names: Seq<Seq<char>>)
    requires
        are_names(names),
        names.len() > 0,
    ensures
        remote_path(root, names) == text::trimmed_end_of(root, '/') + "/"@ + local_path(names),
    decreases names.len(),
{
    let before = names.drop_last();
    let top = text::trimmed_end_of(root, '/') + "/"@;
    lemma_names_prefix(names);
    if before.len() == 0 {
        assert(local_path(before) == Seq::<char>::empty());
        assert(remote_path(root, before) == root);
    } else {
        lemma_remote_path(root, before);
        lemma_local_path(before);
        let dir = remote_path(root, before);
        assert(dir.last() == local_path(before).last());
        assert(text::trimmed_end_of(dir, '/') == dir);
        assert(dir + "/"@ + names.last() =~= top + (local_path(before) + "/"@ + names.last()));
    }
}

/// A file that the same names lead to has the same relative path on both sides,
/// whatever the directories are called.
pub proof fn law_paths_agree(root: Seq<char>, names: Seq<Seq<char>>)
    requires
        are_names(names),
        names.len() > 0,
    ensures
        remote::below(root, remote_path(root, names), names.last()) == local_path(names),
{
    let prefix = text::trimmed_end_of(root, '/') + "/"@;
    lemma_remote_path(root, names);
    let path = remote_path(root, names);
    assert(path.take(prefix.len() as int) =~= prefix);
    assert(path.skip(prefix.len() as int) =~= local_path(names));
}

// ---------------------------------------------------------------------------
// Searching a device
// ---------------------------------------------------------------------------

/// Whether none of the names is excluded.
pub open spec fn admitted(names: Seq<Seq<char>>, excludes: Seq<Seq<char>>) -> bool {
    forall|i: int| 0 <= i < names.len() ==> !excludes.contains(#[trigger] names[i])
}

/// Whether a path on the device is reached over names none of which is excluded.
pub open spec fn reached(scope: Scope, path: Seq<char>) -> bool {
    exists|names: Seq<Seq<char>>|
        admitted(names, scope.excludes) && path == #[trigger] remote_path(scope.root, names)
}

/// Whether a path on the device is that of a name in a directory that is reached,
/// and the name is not excluded.
pub open spec fn reached_name(scope: Scope, path: Seq<char>, name: Seq<char>) -> bool {
    !scope.excludes.contains(name) && exists|dir: Seq<char>| #[trigger]
        reached(scope, dir) && path == remote::child(dir, name)
}

/// Whether a found file belongs to the scope: it counts, and it is reached over
/// names none of which is excluded.
pub open spec fn belongs(scope: Scope, f: FileView) -> bool {
    files::counts(scope.paths, f.path) && exists|path: Seq<char>, name: Seq<char>| #[trigger]
        reached_name(scope, path, name) && f.path == remote::below(scope.root, path, name)
}

/// Whether a query stays in the scope.
pub open spec fn stays(scope: Scope, q: QueryView) -> bool {
    match q {
        QueryView::List { path } => reached(scope, path),
        QueryView::Stat { path, name } => reached_name(scope, path, name),
    }
}

/// Whether a search keeps to its scope.
pub open spec fn keeps(scope: Scope, s: Search) -> bool {
    &&& forall|i: int| 0 <= i < s.pending.len() ==> stays(scope, #[trigger] s.pending[i])
    &&& forall|i: int| 0 <= i < s.found.len() ==> belongs(scope, #[trigger] s.found[i])
}

proof fn lemma_reached_dir(scope: Scope, path: Seq<char>, name: Seq<char>)
    requires
        reached_name(scope, path, name),
    ensures
        reached(scope, path),
{
    let dir = choose|dir: Seq<char>| #[trigger]
        reached(scope, dir) && path == remote::child(dir, name);
    let names = choose|names: Seq<Seq<char>>|
        admitted(names, scope.excludes) && dir == #[trigger] remote_path(scope.root, names);
    let longer = names.push(name);
    assert(longer.drop_last() =~= names);
    assert(remote_path(scope.root, longer) == path);
    assert(admitted(longer, scope.excludes)) by {
        assert forall|i: int| 0 <= i < longer.len() implies !scope.excludes.contains(
            #[trigger] longer[i],
        ) by {
            if i < names.len() {
                assert(longer[i] == names[i]);
            }
        }
    }
}

proof fn lemma_child_queries(scope: Scope, dir: Seq<char>, names: Seq<Seq<char>>)
    requires
        reached(scope, dir),
    ensures
        forall|i: int|
            0 <= i < remote::child_queries(dir, names, scope.excludes).len() ==> stays(
                scope,
                #[trigger] remote::child_queries(dir, names, scope.excludes)[i],
            ),
    decreases names.len(),
{
    if names.len() > 0 {
        lemma_child_queries(scope, dir, names.skip(1));
        let rest = remote::child_queries(dir, names.skip(1), scope.excludes);
        let all = remote::child_queries(dir, names, scope.excludes);
        assert forall|i: int| 0 <= i < all.len() implies stays(scope, #[trigger] all[i]) by {
            if i < rest.len() {
                assert(all[i] == rest[i]);
            }
        }
    }
}

proof fn lemma_search_on(scope: Scope, s: Search, a: Answer)
    requires
        keeps(scope, s),
        s.pending.len() > 0,
    ensures
        keeps(scope, remote::search_on(scope, s, a)),
{
    let t = remote::search_on(scope, s, a);
    let rest = s.pending.drop_last();
    let q = s.pending.last();
    assert(q == s.pending[s.pending.len() - 1]);
    assert(stays(scope, q));
    assert forall|i: int| 0 <= i < rest.len() implies stays(scope, #[trigger] rest[i]) by {
        assert(rest[i] == s.pending[i]);
    }
    match (q, a) {
        (QueryView::List { path }, Answer::Listed(Ok(names))) => {
            lemma_child_queries(scope, path, names);
            let more = remote::child_queries(path, names, scope.excludes);
            assert forall|i: int| 0 <= i < t.pending.len() implies stays(
                scope,
                #[trigger] t.pending[i],
            ) by {
                if i < rest.len() {
                    assert(t.pending[i] == rest[i]);
                } else {
                    assert(t.pending[i] == more[i - rest.len()]);
                }
            }
        },
        (QueryView::Stat { path, name }, Answer::Stated(Ok(stat))) => {
            if stat.is_dir {
                lemma_reached_dir(scope, path, name);
                assert forall|i: int| 0 <= i < t.pending.len() implies stays(
                    scope,
                    #[trigger] t.pending[i],
                ) by {
                    if i < rest.len() {
                        assert(t.pending[i] == rest[i]);
                    }
                }
            } else {
                let rel = remote::below(scope.root, path, name);
                files::lemma_file_index(s.found, rel);
                assert forall|i: int| 0 <= i < t.found.len() implies belongs(
                    scope,
                    #[trigger] t.found[i],
                ) by {
                    if i < s.found.len() && t.found[i] == s.found[i] {
                        assert(belongs(scope, s.found[i]));
                    } else {
                        assert(t.found[i] == FileView { path: rel, size: stat.size });
                    }
                }
            }
        },
        _ => {},
    }
}

/// However a device answers, a search asks only for paths that are reached over
/// names none of which is excluded, and finds only files that count.
pub proof fn law_search_keeps_to_its_scope(
    scope: Scope,
    pre: SessionView,
    k: nat,
    post: SessionView,
    s: Search,
)
    requires
        remote::searches(scope, pre, k, post, s),
    ensures
        keeps(scope, s),
    decreases k,
{
    if k == 0 {
        let names = Seq::<Seq<char>>::empty();
        assert(admitted(names, scope.excludes));
        assert(remote_path(scope.root, names) == scope.root);
        assert(reached(scope, scope.root));
    } else {
        let (m, t, a) = choose|m: SessionView, t: Search, a: Answer|
            remote::searches(scope, pre, (k - 1) as nat, m, t) && #[trigger] remote::searches_on(
                scope,
                m,
                t,
                a,
                post,
                s,
            );
        law_search_keeps_to_its_scope(scope, pre, (k - 1) as nat, m, t);
        lemma_search_on(scope, t, a);
    }
}

/// A script that only looks was executed: one that lists a directory or asks for
/// the status of a file.
pub open spec fn looks(pre: SessionView, post: SessionView) -> bool {
    exists|path: Seq<char>, r: Result<Seq<char>, ErrorView>|
        #![trigger device::prints(pre, scripts::list_script(path), post, r)]
        #![trigger device::prints(pre, scripts::stat_script(path), post, r)]
        device::prints(pre, scripts::list_script(path), post, r) || device::prints(
            pre,
            scripts::stat_script(path),
            post,
            r,
        )
}

/// `k` scripts were executed, all of which only look.
pub open spec fn only_looks(pre: SessionView, k: nat, post: SessionView) -> bool
    decreases k,
{
    if k == 0 {
        post == pre
    } else {
        exists|m: SessionView|
            only_looks(pre, (k - 1) as nat, m) && #[trigger] looks(m, post)
    }
}

/// A search changes nothing on the device: all that it executes are scripts that
/// list a directory or ask for the status of a file.
pub proof fn law_search_only_looks(
    scope: Scope,
    pre: SessionView,
    k: nat,
    post: SessionView,
    s: Search,
)
    requires
        remote::searches(scope, pre, k, post, s),
    ensures
        only_looks(pre, k, post),
    decreases k,
{
    if k > 0 {
        let (m, t, a) = choose|m: SessionView, t: Search, a: Answer|
            remote::searches(scope, pre, (k - 1) as nat, m, t) && #[trigger] remote::searches_on(
                scope,
                m,
                t,
                a,
                post,
                s,
            );
        law_search_only_looks(scope, pre, (k - 1) as nat, m, t);
        match (t.pending.last(), a) {
            (QueryView::List { path }, Answer::Listed(r)) => {
                let p = choose|p: Result<Seq<char>, ErrorView>| #[trigger]
                    device::prints(m, scripts::list_script(path), post, p) && r
                        == device::names(p);
                assert(device::prints(m, scripts::list_script(path), post, p));
            },
            (QueryView::Stat { path, name }, Answer::Stated(r)) => {
                let p = choose|p: Result<Seq<char>, ErrorView>| #[trigger]
                    device::prints(m, scripts::stat_script(path), post, p) && r
                        == device::stat_in(path, p);
                assert(device::prints(m, scripts::stat_script(path), post, p));
            },
            _ => {},
        }
        assert(looks(m, post));
    }
}

// ---------------------------------------------------------------------------
// Walking local directories
// ---------------------------------------------------------------------------

/// Whether a relative path is reached over names none of which is excluded.
pub open spec fn reached_locally(path: Seq<char>, excludes: Seq<Seq<char>>) -> bool {
    exists|names: Seq<Seq<char>>|
        admitted(names, excludes) && path == #[trigger] local_path(names)
}

/// Whether a walk has kept to the rules: all paths are reached over names none of
/// which is excluded, and the files count.
pub open spec fn keeps_locally(
    s: LocalSearch,
    excludes: Seq<Seq<char>>,
    paths: Option<Set<Seq<char>>>,
) -> bool {
    &&& forall|i: int|
        0 <= i < s.pending.len() ==> reached_locally(#[trigger] s.pending[i], excludes)
    &&& forall|i: int|
        0 <= i < s.found.len() ==> reached_locally(#[trigger] s.found[i], excludes)
            && files::counts(paths, s.found[i])
}

proof fn lemma_reached_locally(dir: Seq<char>, name: Seq<char>, excludes: Seq<Seq<char>>)
    requires
        reached_locally(dir, excludes),
        !excludes.contains(name),
    ensures
        reached_locally(walk::local_child(dir, name), excludes),
{
    let names = choose|names: Seq<Seq<char>>|
        admitted(names, excludes) && dir == #[trigger] local_path(names);
    let longer = names.push(name);
    assert(longer.drop_last() =~= names);
    assert(local_path(longer) == walk::local_child(dir, name));
    assert forall|i: int| 0 <= i < longer.len() implies !excludes.contains(
        #[trigger] longer[i],
    ) by {
        if i < names.len() {
            assert(longer[i] == names[i]);
        }
    }
}

/// A walk begins by the rules.
pub proof fn law_local_walk_begins_by_the_rules(
    excludes: Seq<Seq<char>>,
    paths: Option<Set<Seq<char>>>,
)
    ensures
        keeps_locally(
            LocalSearch { pending: seq![Seq::empty()], found: Seq::empty() },
            excludes,
            paths,
        ),
{
    let names = Seq::<Seq<char>>::empty();
    assert(admitted(names, excludes));
    assert(local_path(names) == Seq::<char>::empty());
}

/// A walk keeps to the rules whatever a directory holds.
pub proof fn law_local_walk_keeps_to_the_rules(
    s: LocalSearch,
    dir: Seq<char>,
    entries: Seq<LocalView>,
    excludes: Seq<Seq<char>>,
    paths: Option<Set<Seq<char>>>,
)
    requires
        keeps_locally(s, excludes, paths),
        reached_locally(dir, excludes),
    ensures
        keeps_locally(walk::local_listed(s, dir, entries, excludes, paths), excludes, paths),
    decreases entries.len(),
{
    if entries.len() > 0 {
        law_local_walk_keeps_to_the_rules(s, dir, entries.drop_last(), excludes, paths);
        let t = walk::local_listed(s, dir, entries.drop_last(), excludes, paths);
        let u = walk::local_listed(s, dir, entries, excludes, paths);
        let e = entries.last();
        let path = walk::local_child(dir, e.name);
        if !excludes.contains(e.name) {
            lemma_reached_locally(dir, e.name, excludes);
            assert forall|i: int| 0 <= i < u.pending.len() implies reached_locally(
                #[trigger] u.pending[i],
                excludes,
            ) by {
                if i < t.pending.len() {
                    assert(u.pending[i] == t.pending[i]);
                }
            }
            assert forall|i: int| 0 <= i < u.found.len() implies reached_locally(
                #[trigger] u.found[i],
                excludes,
            ) && files::counts(paths, u.found[i]) by {
                if i < t.found.len() {
                    assert(u.found[i] == t.found[i]);
                } else {
                    assert(u.found[i] == path);
                }
            }
        }
    }
}

/// Whether an item of an upload is a child of the directory `rel` on its way to
/// `remote`, with a name that is not excluded, and counts if it is a file.
pub open spec fn put_by_the_rules(
    item: PutItemView,
    rel: Seq<char>,
    remote: Seq<char>,
    excludes: Seq<Seq<char>>,
    paths: Option<Set<Seq<char>>>,
) -> bool {
    exists|name: Seq<char>| #[trigger]
        put_child_by_the_rules(item, name, rel, remote, excludes, paths)
}

/// What `put_by_the_rules` says for a name.
pub open spec fn put_child_by_the_rules(
    item: PutItemView,
    name: Seq<char>,
    rel: Seq<char>,
    remote: Seq<char>,
    excludes: Seq<Seq<char>>,
    paths: Option<Set<Seq<char>>>,
) -> bool {
    let path = walk::local_child(rel, name);
    let target = remote::child(remote, name);
    &&& !excludes.contains(name)
    &&& match item {
        PutItemView::Dir { rel: r, remote: m } => r == path && m == target,
        PutItemView::Open { rel: r, remote: m } => false,
        PutItemView::File { rel: r, remote: m } => r == path && m == target && files::counts(
            paths,
            text::replaced(path, '\\', '/'),
        ),
    }
}

/// Whatever a directory holds, an upload takes up nothing with an excluded name
/// and no file that does not count, and keeps the names on their way to the device.
pub proof fn law_upload_keeps_to_the_rules(
    rel: Seq<char>,
    remote: Seq<char>,
    entries: Seq<LocalView>,
    excludes: Seq<Seq<char>>,
    paths: Option<Set<Seq<char>>>,
)
    ensures
        forall|i: int|
            0 <= i < walk::put_children(rel, remote, entries, excludes, paths).len()
                ==> put_by_the_rules(
                #[trigger] walk::put_children(rel, remote, entries, excludes, paths)[i],
                rel,
                remote,
                excludes,
                paths,
            ),
    decreases entries.len(),
{
    if entries.len() > 0 {
        law_upload_keeps_to_the_rules(rel, remote, entries.skip(1), excludes, paths);
        let rest = walk::put_children(rel, remote, entries.skip(1), excludes, paths);
        let all = walk::put_children(rel, remote, entries, excludes, paths);
        assert forall|i: int| 0 <= i < all.len() implies put_by_the_rules(
            #[trigger] all[i],
            rel,
            remote,
            excludes,
            paths,
        ) by {
            if i < rest.len() {
                assert(all[i] == rest[i]);
            } else {
                assert(put_child_by_the_rules(
                    all[i],
                    entries[0].name,
                    rel,
                    remote,
                    excludes,
                    paths,
                ));
            }
        }
    }
}

} // verus!
