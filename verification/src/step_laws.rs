//! What single steps of walks and searches do with the device: what is created, written,
//! read and asked there, and what becomes of errors.

use vstd::prelude::*;

use crate::device;
use crate::directory_laws;
use crate::error::ErrorView;
use crate::files;
use crate::files::FileView;
use crate::mirror_laws;
use crate::operation_laws;
use crate::remote;
use crate::remote::Answer;
use crate::remote::QueryView;
use crate::remote::Scope;
use crate::remote::Search;
use crate::replies::StatView;
use crate::session;
use crate::session::Output;
use crate::session::SessionView;
use crate::text;
use crate::walk;
use crate::walk::GetActionView;
use crate::walk::GetItemView;
use crate::walk::GetState;
use crate::walk::PutActionView;
use crate::walk::PutItemView;
use crate::walk::PutState;

verus! {

// ---------------------------------------------------------------------------
// What a walk does with the device
// ---------------------------------------------------------------------------

/// The local path of a name is the path of its directory, a slash and the name; in the
/// directory itself it is the name.
pub proof fn law_local_paths(rel: Seq<char>, name: Seq<char>)
    ensures
        walk::local_child(Seq::empty(), name) == name,
        rel.len() > 0 ==> walk::local_child(rel, name) == rel + "/"@ + name,
{
}

/// Without a filter every path counts, and with one those that it lets through. For the
/// filter a backslash separates like a slash, and nothing else changes in a path.
pub proof fn law_filter_decides_what_counts(paths: Set<Seq<char>>, path: Seq<char>, i: int)
    ensures
        files::counts(None, path),
        files::counts(Some(paths), path) <==> paths.contains(path),
        text::replaced(path, '\\', '/').len() == path.len(),
        0 <= i < path.len() ==> text::replaced(path, '\\', '/')[i] == (if path[i] == '\\' {
            '/'
        } else {
            path[i]
        }),
{
}

/// An upload that comes to a directory has executed a script that creates it on the
/// device, and asks for its entries. It asks for the content of a file, and for the
/// entries of a directory that was created, without doing anything. At its end it tells
/// how many files were uploaded.
pub proof fn law_upload_step(
    pre: SessionView,
    s: PutState,
    post: SessionView,
    t: PutState,
    a: PutActionView,
)
    requires
        walk::put_steps(pre, s, post, t, a),
    ensures
        t.count == s.count,
        s.pending.len() == 0 ==> post == pre && t == s && a == (PutActionView::Finished {
            count: s.count,
        }),
        s.pending.len() > 0 ==> (match s.pending.last() {
            PutItemView::Dir { rel, remote } => {
                &&& mirror_laws::tried_to_make(pre, remote, post)
                &&& t.pending == s.pending.drop_last().push(PutItemView::Open { rel, remote })
                &&& a == (PutActionView::ListDir { rel })
            },
            PutItemView::Open { rel, remote } => post == pre && t == s && a == (
            PutActionView::ListDir { rel }),
            PutItemView::File { rel, remote } => post == pre && t == s && a == (
            PutActionView::ReadFile { rel }),
        }),
{
    if s.pending.len() > 0 {
        match s.pending.last() {
            PutItemView::Dir { rel, remote } => {
                let r = choose|r: Result<(), ErrorView>| #[trigger]
                    device::makes_dir(pre, remote, post, r);
                operation_laws::law_mkdir_outcome(pre, remote, post, r);
                let (script, out) = choose|script: Seq<char>, out: Result<Output, ErrorView>|
                 #[trigger]
                    operation_laws::executed(pre, script, post, out) && directory_laws::tried_by(
                        script,
                    ) == Some(directory_laws::tried(remote))
                        && operation_laws::succeeded_or_not(out, r);
                assert(session::executes(pre, vstd::utf8::encode_utf8(script), post, out));
            },
            _ => {},
        }
    }
}

/// A file of an upload that was written has its content on the device, and counts. One
/// that could not be written does not count, and the error says why. Either way the
/// upload goes on behind it. Where no file was asked for nothing is done.
pub proof fn law_upload_writes_the_file(
    pre: SessionView,
    s: PutState,
    data: Seq<u8>,
    post: SessionView,
    t: PutState,
    r: Result<(), ErrorView>,
)
    requires
        walk::put_writes(pre, s, data, post, t, r),
    ensures
        s.pending.len() > 0 && s.pending.last() is File ==> {
            let remote = s.pending.last()->File_remote;
            &&& t.pending == s.pending.drop_last()
            &&& match r {
                Ok(_) => {
                    &&& operation_laws::data_written(pre, remote, data, post)
                    &&& s.count < usize::MAX ==> t.count == s.count + 1
                },
                Err(e) => {
                    &&& exists|all: Seq<Seq<char>>| #[trigger]
                        mirror_laws::failed(pre, all, post, e) && mirror_laws::makes(
                            all,
                            remote,
                            Some(data),
                        )
                    &&& t.count == s.count
                },
            }
        },
        s.pending.len() == 0 || !(s.pending.last() is File) ==> post == pre && t == s && r is Ok,
{
    if s.pending.len() > 0 && s.pending.last() is File {
        let remote = s.pending.last()->File_remote;
        match r {
            Ok(u) => {
                assert(u == ());
                mirror_laws::law_write_leaves_the_data(pre, remote, data, post);
            },
            Err(e) => {
                mirror_laws::law_write_fails_for_a_reason(pre, remote, data, post, e);
            },
        }
    }
}

/// The items for the names in a directory: one for each name, with its path and the names
/// that lead to it, the first name last.
pub proof fn law_every_name_is_looked_at(
    remote: Seq<char>,
    names: Seq<Seq<char>>,
    listed: Seq<Seq<char>>,
)
    ensures
        walk::get_children(remote, names, listed).len() == listed.len(),
        forall|i: int|
            0 <= i < listed.len() ==> #[trigger] walk::get_children(remote, names, listed)[i] == (
            GetItemView::Entry {
                remote: remote::child(remote, listed[listed.len() - 1 - i]),
                names: names.push(listed[listed.len() - 1 - i]),
            }),
    decreases listed.len(),
{
    if listed.len() > 0 {
        let rest = listed.skip(1);
        law_every_name_is_looked_at(remote, names, rest);
        let all = walk::get_children(remote, names, listed);
        let later = walk::get_children(remote, names, rest);
        assert forall|i: int| 0 <= i < listed.len() implies #[trigger] all[i] == (
        GetItemView::Entry {
            remote: remote::child(remote, listed[listed.len() - 1 - i]),
            names: names.push(listed[listed.len() - 1 - i]),
        }) by {
            if i < later.len() {
                assert(all[i] == later[i]);
                assert(rest[rest.len() - 1 - i] == listed[listed.len() - 1 - i]);
            }
        }
    }
}

/// What a download does with a directory: it lists it on the device and looks at every
/// name, or fails with the error of the listing.
pub open spec fn dir_listed(
    pre: SessionView,
    s: GetState,
    remote: Seq<char>,
    names: Seq<Seq<char>>,
    post: SessionView,
    t: GetState,
    r: Result<GetActionView, ErrorView>,
) -> bool {
    exists|listed: Result<Seq<Seq<char>>, ErrorView>| #[trigger]
        device::lists(pre, remote, post, listed) && t.count == s.count && match listed {
            Ok(found) => t.pending == s.pending.drop_last() + walk::get_children(
                remote,
                names,
                found,
            ) && r == Ok::<GetActionView, ErrorView>(GetActionView::GoOn),
            Err(e) => t.pending == s.pending.drop_last() && r == Err::<GetActionView, ErrorView>(e),
        }
}

/// What a download does with a file: it reads it from the device and hands all of it over
/// to be saved, or fails with the error of the reading.
pub open spec fn file_read(
    pre: SessionView,
    s: GetState,
    remote: Seq<char>,
    names: Seq<Seq<char>>,
    post: SessionView,
    t: GetState,
    r: Result<GetActionView, ErrorView>,
) -> bool {
    exists|data: Result<Seq<u8>, ErrorView>| #[trigger]
        device::reads(pre, remote, post, data) && t.pending == s.pending.drop_last() && match data {
            Ok(bytes) => (s.count < usize::MAX ==> t.count == s.count + 1) && r == Ok::<
                GetActionView,
                ErrorView,
            >(GetActionView::Save { names, data: bytes }),
            Err(e) => t.count == s.count && r == Err::<GetActionView, ErrorView>(e),
        }
}

/// What a download does with a name: it asks the device for the status. A directory is
/// to be created and listed, and anything else is read as a file.
pub open spec fn name_looked_at(
    pre: SessionView,
    s: GetState,
    remote: Seq<char>,
    names: Seq<Seq<char>>,
    post: SessionView,
    t: GetState,
    r: Result<GetActionView, ErrorView>,
) -> bool {
    exists|m: SessionView, stat: Result<StatView, ErrorView>| #[trigger]
        device::stats(pre, remote, m, stat) && match stat {
            Ok(x) if x.is_dir => {
                &&& post == m
                &&& t.pending == s.pending.drop_last().push(GetItemView::Dir { remote, names })
                &&& t.count == s.count
                &&& r == Ok::<GetActionView, ErrorView>(GetActionView::GoOn)
            },
            _ => file_read(m, s, remote, names, post, t, r),
        }
}

/// A download creates a directory locally before it lists it, looks at every name in it,
/// and at its end tells how many files were downloaded.
pub proof fn law_download_step(
    pre: SessionView,
    s: GetState,
    post: SessionView,
    t: GetState,
    r: Result<GetActionView, ErrorView>,
)
    requires
        walk::get_steps(pre, s, post, t, r),
    ensures
        s.pending.len() == 0 ==> post == pre && t == s && r == Ok::<GetActionView, ErrorView>(
            GetActionView::Finished { count: s.count },
        ),
        s.pending.len() > 0 ==> (match s.pending.last() {
            GetItemView::Dir { remote, names } => {
                &&& post == pre
                &&& t.pending == s.pending.drop_last().push(GetItemView::Open { remote, names })
                &&& t.count == s.count
                &&& r == Ok::<GetActionView, ErrorView>(GetActionView::CreateDir { names })
            },
            GetItemView::Open { remote, names } => dir_listed(pre, s, remote, names, post, t, r),
            GetItemView::Entry { remote, names } => name_looked_at(
                pre,
                s,
                remote,
                names,
                post,
                t,
                r,
            ),
        }),
{
    if s.pending.len() > 0 {
        match s.pending.last() {
            GetItemView::Open { remote, names } => {
                let listed = choose|listed: Result<Seq<Seq<char>>, ErrorView>| #[trigger]
                    device::lists(pre, remote, post, listed) && walk::get_listed(
                        s,
                        remote,
                        names,
                        listed,
                        t,
                        r,
                    );
                assert(dir_listed(pre, s, remote, names, post, t, r));
            },
            GetItemView::Entry { remote, names } => {
                let (m, stat) = choose|m: SessionView, stat: Result<StatView, ErrorView>|
                 #[trigger]
                    device::stats(pre, remote, m, stat) && if walk::says_dir(stat) {
                        post == m && walk::get_entered(s, remote, names, t, r)
                    } else {
                        walk::get_reads(m, s, remote, names, post, t, r)
                    };
                if !walk::says_dir(stat) {
                    let data = choose|data: Result<Seq<u8>, ErrorView>| #[trigger]
                        device::reads(m, remote, post, data) && walk::get_read(s, names, data, t, r);
                    assert(file_read(m, s, remote, names, post, t, r));
                }
                assert(name_looked_at(pre, s, remote, names, post, t, r));
            },
            _ => {},
        }
    }
}

// ---------------------------------------------------------------------------
// What a search does with the device
// ---------------------------------------------------------------------------

/// Every query of a search is put to the device, by its path, and the answer is what came
/// back.
pub proof fn law_search_asks_the_device(
    pre: SessionView,
    path: Seq<char>,
    name: Seq<char>,
    post: SessionView,
    a: Answer,
)
    ensures
        remote::answers(pre, QueryView::List { path }, post, a) <==> (a matches Answer::Listed(r)
            && device::lists(pre, path, post, r)),
        remote::answers(pre, QueryView::Stat { path, name }, post, a) <==> (
        a matches Answer::Stated(r) && device::stats(pre, path, post, r)),
{
}

/// A search asks one query after the other, the last one first. What cannot be listed or
/// has no status is passed over: the search goes on with the queries that are left, and
/// with the files that were found.
pub proof fn law_search_passes_over_failures(scope: Scope, s: Search, e: ErrorView)
    requires
        s.pending.len() > 0,
    ensures
        s.pending.last() is List ==> remote::search_on(scope, s, Answer::Listed(Err(e))) == (
        Search { pending: s.pending.drop_last(), found: s.found }),
        s.pending.last() is Stat ==> remote::search_on(scope, s, Answer::Stated(Err(e))) == (
        Search { pending: s.pending.drop_last(), found: s.found }),
{
}

/// A search begins with the directory, and ends when no query is left; its result is what
/// it has found then. It gives up only after more queries than a counter holds.
pub proof fn law_search_ends_when_nothing_is_left(
    scope: Scope,
    pre: SessionView,
    post: SessionView,
    r: Result<Seq<FileView>, ErrorView>,
)
    requires
        remote::finds(scope, pre, post, r),
    ensures
        match r {
            Ok(found) => exists|k: nat, s: Search| #[trigger]
                remote::searches(scope, pre, k, post, s) && s.pending.len() == 0 && s.found == found,
            Err(_) => exists|k: nat, s: Search| #[trigger]
                remote::searches(scope, pre, k, post, s) && s.pending.len() > 0 && k >= u64::MAX,
        },
        remote::search_start(scope).pending == seq![QueryView::List { path: scope.root }],
        remote::search_start(scope).found.len() == 0,
{
}

} // verus!
