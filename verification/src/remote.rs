//! The files on a device, and bringing them in line with local ones.

use vstd::prelude::*;

use crate::connection::Connection;
use crate::device;
use crate::device::Device;
use crate::error;
use crate::error::ErrorView;
use crate::error::MpError;
use crate::files;
use crate::files::does_count;
use crate::files::is_one_of;
use crate::files::FileSizes;
use crate::files::FileView;
use crate::filter::IncludeFilter;
use crate::replies;
use crate::replies::FileStat;
use crate::replies::StatView;
use crate::scripts;
use crate::session::SessionView;
use crate::sync;
use crate::sync::compare_files;
use crate::sync::plan_sync;
use crate::sync::ActionView;
use crate::sync::DiffEntry;
use crate::sync::DiffResult;
use crate::sync::DiffView;
use crate::sync::StatsView;
use crate::sync::SyncAction;
use crate::sync::SyncStats;
use crate::text;
use crate::text::from_chars;
use crate::text::str_eq;
use crate::text::strip_prefix;
use crate::text::to_chars;
use crate::text::trim_end_of;

verus! {

// ---------------------------------------------------------------------------
// Paths on a device
// ---------------------------------------------------------------------------

/// The path of what is called `name` in the directory `dir`.
pub open spec fn child(dir: Seq<char>, name: Seq<char>) -> Seq<char> {
    text::trimmed_end_of(dir, '/') + "/"@ + name
}

/// The path below `root` of a file with the name `name`.
pub open spec fn below(root: Seq<char>, path: Seq<char>, name: Seq<char>) -> Seq<char> {
    let prefix = text::trimmed_end_of(root, '/') + "/"@;
    if text::starts_with(path, prefix) {
        path.skip(prefix.len() as int)
    } else {
        name
    }
}

/// A directory path without trailing separators and `.` components.
pub open spec fn plain_dir(s: Seq<char>) -> Seq<char>
    decreases s.len(),
{
    if s.len() > 0 && s.last() == '/' {
        plain_dir(s.drop_last())
    } else if s.len() > 1 && s.last() == '.' && s[s.len() - 2] == '/' {
        plain_dir(s.take(s.len() - 2))
    } else {
        s
    }
}

/// What stands before the last `/`.
pub open spec fn before_last_slash(s: Seq<char>) -> Option<Seq<char>>
    decreases s.len(),
{
    if s.len() == 0 {
        None
    } else if s.last() == '/' {
        Some(s.drop_last())
    } else {
        before_last_slash(s.drop_last())
    }
}

/// The directory that a file stands in, if its path names one.
pub open spec fn parent(path: Seq<char>) -> Option<Seq<char>> {
    match before_last_slash(path) {
        None => None,
        Some(dir) => Some(
            if plain_dir(dir).len() == 0 {
                "/"@
            } else {
                plain_dir(dir)
            },
        ),
    }
}

/// Joins a directory and a name.
pub fn join_remote(dir: &str, name: &str) -> (r: String)
    ensures
        r@ == child(dir@, name@),
{
    let mut s: String = trim_end_of(dir, '/');
    s.append("/");
    s.append(name);
    s
}

fn path_below(root: &str, path: &str, name: &str) -> (r: String)
    ensures
        r@ == below(root@, path@, name@),
{
    let mut prefix: String = trim_end_of(root, '/');
    prefix.append("/");
    match strip_prefix(path, prefix.as_str()) {
        Some(rest) => rest,
        None => name.to_owned(),
    }
}

/// The directory that a file stands in.
pub fn remote_parent(path: &str) -> (r: Option<String>)
    ensures
        match r {
            Some(dir) => parent(path@) == Some(dir@),
            None => parent(path@) is None,
        },
{
    let chars: Vec<char> = to_chars(path);
    let ghost all = chars@;
    let mut n: usize = chars.len();
    assert(all.take(n as int) =~= all);
    while n > 0 && chars[n - 1] != '/'
        invariant
            n <= chars@.len(),
            all == chars@,
            before_last_slash(all) == before_last_slash(all.take(n as int)),
        decreases n,
    {
        assert(all.take(n as int).drop_last() =~= all.take(n - 1));
        n = n - 1;
    }
    if n == 0 {
        return None;
    }
    let ghost dir = all.take(n - 1);
    assert(all.take(n as int).drop_last() =~= dir);
    assert(before_last_slash(all) == Some(dir));
    let mut m: usize = n - 1;
    loop
        invariant
            m <= chars@.len(),
            all == chars@,
            plain_dir(dir) == plain_dir(all.take(m as int)),
            parent(path@) == Some(
                if plain_dir(dir).len() == 0 {
                    "/"@
                } else {
                    plain_dir(dir)
                },
            ),
        decreases m,
    {
        let ghost now = all.take(m as int);
        if m > 0 && chars[m - 1] == '/' {
            assert(now.drop_last() =~= all.take(m - 1));
            m = m - 1;
        } else if m > 1 && chars[m - 1] == '.' && chars[m - 2] == '/' {
            assert(now.take(m - 2) =~= all.take(m - 2));
            m = m - 2;
        } else {
            if m == 0 {
                return Some("/".to_owned());
            }
            let part: &[char] = vstd::slice::slice_subrange(chars.as_slice(), 0, m);
            assert(part@ =~= now);
            return Some(from_chars(part));
        }
    }
}

// ---------------------------------------------------------------------------
// Finding the files below a directory
// ---------------------------------------------------------------------------

/// What is still to be asked.
pub enum Query {
    List { path: String },
    Stat { path: String, name: String },
}

/// The mathematical value of a `Query`.
pub enum QueryView {
    List { path: Seq<char> },
    Stat { path: Seq<char>, name: Seq<char> },
}

impl View for Query {
    type V = QueryView;

    open spec fn view(&self) -> QueryView {
        match *self {
            Query::List { path } => QueryView::List { path: path@ },
            Query::Stat { path, name } => QueryView::Stat { path: path@, name: name@ },
        }
    }
}

/// The values of queries.
pub open spec fn query_views(v: Seq<Query>) -> Seq<QueryView> {
    Seq::new(v.len(), |i: int| v[i]@)
}

/// What the device answered.
pub enum Answer {
    Listed(Result<Seq<Seq<char>>, ErrorView>),
    Stated(Result<StatView, ErrorView>),
}

/// Which files are looked for: those below a directory, without the excluded
/// names, as far as they count.
pub struct Scope {
    pub root: Seq<char>,
    pub excludes: Seq<Seq<char>>,
    pub paths: Option<Set<Seq<char>>>,
}

/// How far the search has come. The last query is asked next.
pub struct Search {
    pub pending: Seq<QueryView>,
    pub found: Seq<FileView>,
}

/// The queries for the names in a directory, the first name last.
pub open spec fn child_queries(
    dir: Seq<char>,
    names: Seq<Seq<char>>,
    excludes: Seq<Seq<char>>,
) -> Seq<QueryView>
    decreases names.len(),
{
    if names.len() == 0 {
        Seq::empty()
    } else {
        let rest = child_queries(dir, names.skip(1), excludes);
        if excludes.contains(names[0]) {
            rest
        } else {
            rest.push(QueryView::Stat { path: child(dir, names[0]), name: names[0] })
        }
    }
}

/// A query was answered.
pub open spec fn answers(
    pre: SessionView,
    q: QueryView,
    post: SessionView,
    a: Answer,
) -> bool {
    match (q, a) {
        (QueryView::List { path }, Answer::Listed(r)) => device::lists(pre, path, post, r),
        (QueryView::Stat { path, .. }, Answer::Stated(r)) => device::stats(pre, path, post, r),
        _ => false,
    }
}

/// The search after an answer. A directory that cannot be listed and a file
/// without a status are passed over; a directory is searched next.
pub open spec fn search_on(scope: Scope, s: Search, a: Answer) -> Search {
    let rest = s.pending.drop_last();
    match (s.pending.last(), a) {
        (QueryView::List { path }, Answer::Listed(Ok(names))) => Search {
            pending: rest + child_queries(path, names, scope.excludes),
            found: s.found,
        },
        (QueryView::Stat { path, name }, Answer::Stated(Ok(stat))) => if stat.is_dir {
            Search { pending: rest.push(QueryView::List { path }), found: s.found }
        } else {
            let rel = below(scope.root, path, name);
            Search {
                pending: rest,
                found: if files::counts(scope.paths, rel) {
                    files::with_file(s.found, rel, stat.size)
                } else {
                    s.found
                },
            }
        },
        _ => Search { pending: rest, found: s.found },
    }
}

/// Where a search starts.
pub open spec fn search_start(scope: Scope) -> Search {
    Search { pending: seq![QueryView::List { path: scope.root }], found: Seq::empty() }
}

/// One more query of a search.
pub open spec fn searches_on(
    scope: Scope,
    pre: SessionView,
    s: Search,
    a: Answer,
    post: SessionView,
    t: Search,
) -> bool {
    &&& s.pending.len() > 0
    &&& answers(pre, s.pending.last(), post, a)
    &&& t == search_on(scope, s, a)
}

/// After `k` queries a search has taken a session from `pre` to `post` and has
/// come to `s`.
pub open spec fn searches(
    scope: Scope,
    pre: SessionView,
    k: nat,
    post: SessionView,
    s: Search,
) -> bool
    decreases k,
{
    if k == 0 {
        post == pre && s == search_start(scope)
    } else {
        exists|m: SessionView, t: Search, a: Answer|
            searches(scope, pre, (k - 1) as nat, m, t) && #[trigger] searches_on(
                scope,
                m,
                t,
                a,
                post,
                s,
            )
    }
}

/// A search came to its end and found files. One that is not over after the
/// greatest number of queries fails.
pub open spec fn finds(
    scope: Scope,
    pre: SessionView,
    post: SessionView,
    r: Result<Seq<FileView>, ErrorView>,
) -> bool {
    exists|k: nat, s: Search| #[trigger]
        searches(scope, pre, k, post, s) && match r {
            Ok(found) => s.pending.len() == 0 && found == s.found,
            Err(e) => {
                &&& s.pending.len() > 0
                &&& k == u64::MAX
                &&& e == ErrorView::Protocol("remote directory tree has no end"@)
            },
        }
}

/// The scope of a search.
pub open spec fn scope_of(
    root: &str,
    excludes: Seq<&str>,
    filter: Option<&IncludeFilter>,
) -> Scope {
    Scope { root: root@, excludes: files::strs(excludes), paths: files::let_through(filter) }
}

/// Adds the queries for the names in a directory.
fn push_child_queries(
    pending: &mut Vec<Query>,
    dir: &str,
    names: &Vec<String>,
    excludes: &[&str],
)
    ensures
        query_views(final(pending)@) == query_views(old(pending)@) + child_queries(
            dir@,
            scripts::strings(names@),
            files::strs(excludes@),
        ),
{
    let ghost before = query_views(pending@);
    let ghost all = scripts::strings(names@);
    let ghost ex = files::strs(excludes@);
    let mut n: usize = names.len();
    assert(all.skip(n as int).len() == 0);
    assert(before + child_queries(dir@, all.skip(n as int), ex) =~= before);
    while n > 0
        invariant
            n <= names@.len(),
            all == scripts::strings(names@),
            ex == files::strs(excludes@),
            query_views(pending@) == before + child_queries(dir@, all.skip(n as int), ex),
        decreases n,
    {
        let ghost rest = child_queries(dir@, all.skip(n as int), ex);
        let ghost now = pending@;
        let name: &str = names[n - 1].as_str();
        assert(all.skip(n - 1)[0] == name@);
        assert(all.skip(n - 1).skip(1) =~= all.skip(n as int));
        if !is_one_of(excludes, name) {
            let q: Query = Query::Stat { path: join_remote(dir, name), name: name.to_owned() };
            pending.push(q);
            assert(query_views(pending@) =~= query_views(now).push(q@));
            assert((before + rest).push(q@) =~= before + rest.push(q@));
        }
        n = n - 1;
    }
    assert(all.skip(0) =~= all);
}

/// The value of a found set of files.
pub open spec fn found_outcome(r: Result<FileSizes, MpError>) -> Result<Seq<FileView>, ErrorView> {
    match r {
        Ok(f) => Ok(f@),
        Err(e) => Err(e@),
    }
}

impl<C: Connection> Device<C> {
    /// Collects the remote files below a directory, by their path below it.
    pub fn collect_remote_files(
        &mut self,
        remote_dir: &str,
        excludes: &[&str],
        filter: Option<&IncludeFilter>,
    ) -> (r: Result<FileSizes, MpError>)
        ensures
            finds(
                scope_of(remote_dir, excludes@, filter),
                old(self)@,
                final(self)@,
                found_outcome(r),
            ),
            match r {
                Ok(f) => f.wf(),
                Err(_) => true,
            },
    {
        let ghost scope = scope_of(remote_dir, excludes@, filter);
        let mut pending: Vec<Query> = Vec::new();
        let mut found: FileSizes = FileSizes::new();
        let mut left: u64 = u64::MAX;
        pending.push(Query::List { path: remote_dir.to_owned() });
        proof {
            assert(query_views(pending@) =~= search_start(scope).pending);
        }
        loop
            invariant
                scope == scope_of(remote_dir, excludes@, filter),
                found.wf(),
                searches(
                    scope,
                    old(self)@,
                    (u64::MAX - left) as nat,
                    self@,
                    Search { pending: query_views(pending@), found: found@ },
                ),
            decreases left,
        {
            let ghost s = Search { pending: query_views(pending@), found: found@ };
            let ghost m = self@;
            if pending.is_empty() {
                return Ok(found);
            }
            if left == 0 {
                let e: MpError = MpError::Protocol("remote directory tree has no end".to_owned());
                return Err(e);
            }
            assert(s.pending.last() == pending@.last()@);
            assert(query_views(pending@.drop_last()) =~= s.pending.drop_last());
            match pending.pop().unwrap() {
                Query::List { path } => {
                    let listed: Result<Vec<String>, MpError> = self.list_dir(path.as_str());
                    let ghost a = Answer::Listed(replies::names_outcome(listed));
                    match listed {
                        Ok(names) => {
                            push_child_queries(&mut pending, path.as_str(), &names, excludes);
                        },
                        Err(_) => {},
                    }
                    proof {
                        let t = Search { pending: query_views(pending@), found: found@ };
                        assert(searches_on(scope, m, s, a, self@, t));
                    }
                },
                Query::Stat { path, name } => {
                    let stated: Result<FileStat, MpError> = self.stat(path.as_str());
                    let ghost a = Answer::Stated(error::outcome(stated));
                    match stated {
                        Ok(stat) => {
                            if stat.is_dir {
                                let ghost now = pending@;
                                let q: Query = Query::List { path };
                                pending.push(q);
                                assert(query_views(pending@) =~= query_views(now).push(q@));
                            } else {
                                let rel: String = path_below(
                                    remote_dir,
                                    path.as_str(),
                                    name.as_str(),
                                );
                                if does_count(filter, rel.as_str()) {
                                    found.insert(rel.as_str(), stat.size);
                                }
                            }
                        },
                        Err(_) => {},
                    }
                    proof {
                        let t = Search { pending: query_views(pending@), found: found@ };
                        assert(searches_on(scope, m, s, a, self@, t));
                    }
                },
            }
            left = left - 1;
        }
    }
}

// ---------------------------------------------------------------------------
// Syncing
// ---------------------------------------------------------------------------

/// What a sync is to do, given the files that were found on the device.
pub open spec fn sync_plan(
    local: Seq<FileView>,
    found: Result<Seq<FileView>, ErrorView>,
) -> Result<StatsView, ErrorView> {
    match found {
        Ok(remote) => Ok(sync::plan(local, remote)),
        Err(e) => Err(e),
    }
}

/// A file was written, after its directory was created. It does not matter whether
/// that succeeded.
pub open spec fn writes_into(
    pre: SessionView,
    dir: Seq<char>,
    path: Seq<char>,
    data: Seq<u8>,
    post: SessionView,
    r: Result<(), ErrorView>,
) -> bool {
    exists|m: SessionView, any: Result<(), ErrorView>| #[trigger]
        device::makes_dir(pre, dir, m, any) && device::writes(m, path, data, post, r)
}

/// An action of a sync was performed.
pub open spec fn performs(
    pre: SessionView,
    remote_dir: Seq<char>,
    action: ActionView,
    data: Seq<u8>,
    post: SessionView,
    r: Result<(), ErrorView>,
) -> bool {
    let path = child(remote_dir, action.path);
    if action.action == "upload"@ {
        match parent(path) {
            Some(dir) => writes_into(pre, dir, path, data, post, r),
            None => device::writes(pre, path, data, post, r),
        }
    } else if action.action == "delete"@ {
        device::removes(pre, path, post, r)
    } else {
        post == pre && r is Ok
    }
}

impl<C: Connection> Device<C> {
    /// Compares local files with those in a directory of the device, and tells
    /// what makes the device equal: new and changed files are uploaded, and remote
    /// files that don't exist locally are deleted. Nothing is changed on the
    /// device; `sync_step` performs an action.
    pub fn sync(
        &mut self,
        local: &FileSizes,
        remote_dir: &str,
        excludes: &[&str],
        filter: Option<&IncludeFilter>,
    ) -> (r: Result<SyncStats, MpError>)
        ensures
            exists|found: Result<Seq<FileView>, ErrorView>| #[trigger]
                finds(
                    scope_of(remote_dir, excludes@, filter),
                    old(self)@,
                    final(self)@,
                    found,
                ) && error::outcome(r) == sync_plan(local@, found),
    {
        match self.collect_remote_files(remote_dir, excludes, filter) {
            Ok(remote) => {
                assert(finds(
                    scope_of(remote_dir, excludes@, filter),
                    old(self)@,
                    self@,
                    Ok(remote@),
                ));
                Ok(plan_sync(local, &remote))
            },
            Err(e) => {
                assert(finds(
                    scope_of(remote_dir, excludes@, filter),
                    old(self)@,
                    self@,
                    Err(e@),
                ));
                Err(e)
            },
        }
    }

    /// Performs one action of a sync. An upload writes `data`.
    pub fn sync_step(&mut self, remote_dir: &str, action: &SyncAction, data: &[u8]) -> (r: Result<
        (),
        MpError,
    >)
        ensures
            performs(
                old(self)@,
                remote_dir@,
                action@,
                data@,
                final(self)@,
                error::outcome(r),
            ),
    {
        let path: String = join_remote(remote_dir, action.path.as_str());
        if str_eq(action.action.as_str(), "upload") {
            match remote_parent(path.as_str()) {
                Some(dir) => {
                    let made: Result<(), MpError> = self.mkdir(dir.as_str());
                    let ghost m = self@;
                    assert(device::makes_dir(old(self)@, dir@, m, error::outcome(made)));
                    let r: Result<(), MpError> = self.write_file_bytes(path.as_str(), data);
                    assert(writes_into(
                        old(self)@,
                        dir@,
                        path@,
                        data@,
                        self@,
                        error::outcome(r),
                    ));
                    r
                },
                None => self.write_file_bytes(path.as_str(), data),
            }
        } else if str_eq(action.action.as_str(), "delete") {
            self.remove(path.as_str())
        } else {
            Ok(())
        }
    }
}

// ---------------------------------------------------------------------------
// Comparing
// ---------------------------------------------------------------------------

/// The local side of a comparison.
pub enum LocalSide {
    /// A single file.
    File { name: String, size: u64 },
    /// The files below a directory.
    Files(FileSizes),
}

/// The remote file that a local file is compared with: in a directory, if the path
/// ends like one, the file with the same name.
pub open spec fn counterpart(remote_path: Seq<char>, name: Seq<char>) -> Seq<char> {
    if remote_path.len() > 0 && remote_path.last() == '/' {
        remote_path + name
    } else {
        remote_path
    }
}

/// No differences.
pub open spec fn no_differences() -> DiffView {
    DiffView { entries: Seq::empty(), new_count: 0, changed_count: 0, deleted_count: 0 }
}

/// How a local file differs from a remote one with the given status. A file
/// without a status does not exist.
pub open spec fn file_difference(
    name: Seq<char>,
    size: u64,
    stat: Result<StatView, ErrorView>,
) -> DiffView {
    match stat {
        Ok(s) => if s.size == size {
            no_differences()
        } else {
            DiffView {
                entries: seq![sync::changed_entry(name, size, s.size)],
                changed_count: 1,
                ..no_differences()
            }
        },
        Err(_) => DiffView {
            entries: seq![sync::new_entry(name, size)],
            new_count: 1,
            ..no_differences()
        },
    }
}

/// The comparison with the files that were found on the device.
pub open spec fn compared(
    local: Seq<FileView>,
    found: Result<Seq<FileView>, ErrorView>,
    r: Result<DiffView, ErrorView>,
) -> bool {
    match (found, r) {
        (Ok(remote), Ok(d)) => sync::compares(local, remote, d),
        (Err(e), Err(x)) => x == e,
        _ => false,
    }
}

/// A local file was compared with one on the device.
pub open spec fn file_differs(
    pre: SessionView,
    name: Seq<char>,
    size: u64,
    path: Seq<char>,
    post: SessionView,
    r: Result<DiffView, ErrorView>,
) -> bool {
    exists|stat: Result<StatView, ErrorView>| #[trigger]
        device::stats(pre, path, post, stat) && r == Ok::<DiffView, ErrorView>(
            file_difference(name, size, stat),
        )
}

/// Local files were compared with those on the device.
pub open spec fn files_differ(
    pre: SessionView,
    local: Seq<FileView>,
    scope: Scope,
    post: SessionView,
    r: Result<DiffView, ErrorView>,
) -> bool {
    exists|found: Result<Seq<FileView>, ErrorView>| #[trigger]
        finds(scope, pre, post, found) && compared(local, found, r)
}

/// A local side was compared with the device.
pub open spec fn differs(
    pre: SessionView,
    local: LocalSide,
    scope: Scope,
    post: SessionView,
    r: Result<DiffView, ErrorView>,
) -> bool {
    match local {
        LocalSide::File { name, size } => file_differs(
            pre,
            name@,
            size,
            counterpart(scope.root, name@),
            post,
            r,
        ),
        LocalSide::Files(sizes) => files_differ(pre, sizes@, scope, post, r),
    }
}

/// Compares a file with the status of a remote one.
pub fn compare_file(name: &str, size: u64, stat: &Result<FileStat, MpError>) -> (r: DiffResult)
    ensures
        r@ == file_difference(name@, size, error::outcome(*stat)),
{
    let mut entries: Vec<DiffEntry> = Vec::new();
    let mut new_count: usize = 0;
    let mut changed_count: usize = 0;
    match stat {
        Ok(s) => {
            if s.size != size {
                entries.push(
                    DiffEntry {
                        path: name.to_owned(),
                        status: "changed".to_owned(),
                        local_size: Some(size),
                        remote_size: Some(s.size),
                    },
                );
                changed_count = 1;
            }
        },
        Err(_) => {
            entries.push(
                DiffEntry {
                    path: name.to_owned(),
                    status: "new".to_owned(),
                    local_size: Some(size),
                    remote_size: None,
                },
            );
            new_count = 1;
        },
    }
    let r: DiffResult = DiffResult { entries, new_count, changed_count, deleted_count: 0 };
    assert(r@.entries =~= file_difference(name@, size, error::outcome(*stat)).entries);
    r
}

fn counterpart_path(remote_path: &str, name: &str) -> (r: String)
    ensures
        r@ == counterpart(remote_path@, name@),
{
    let chars: Vec<char> = to_chars(remote_path);
    let mut s: String = remote_path.to_owned();
    if chars.len() > 0 && chars[chars.len() - 1] == '/' {
        s.append(name);
    }
    s
}

impl<C: Connection> Device<C> {
    /// Compare local and remote, returning a list of differences.
    /// Supports both single files and directories.
    pub fn diff(
        &mut self,
        local: &LocalSide,
        remote_path: &str,
        excludes: &[&str],
        filter: Option<&IncludeFilter>,
    ) -> (r: Result<DiffResult, MpError>)
        ensures
            differs(
                old(self)@,
                *local,
                scope_of(remote_path, excludes@, filter),
                final(self)@,
                error::outcome(r),
            ),
    {
        match local {
            LocalSide::File { name, size } => {
                let path: String = counterpart_path(remote_path, name.as_str());
                let stat: Result<FileStat, MpError> = self.stat(path.as_str());
                assert(device::stats(old(self)@, path@, self@, error::outcome(stat)));
                let d: DiffResult = compare_file(name.as_str(), *size, &stat);
                assert(file_differs(old(self)@, name@, *size, path@, self@, Ok(d@)));
                Ok(d)
            },
            LocalSide::Files(sizes) => {
                let ghost scope = scope_of(remote_path, excludes@, filter);
                match self.collect_remote_files(remote_path, excludes, filter) {
                    Ok(remote) => {
                        let d: DiffResult = compare_files(sizes, &remote);
                        assert(finds(scope, old(self)@, self@, Ok(remote@)));
                        assert(compared(sizes@, Ok(remote@), Ok(d@)));
                        Ok(d)
                    },
                    Err(e) => {
                        assert(finds(scope, old(self)@, self@, Err(e@)));
                        assert(compared(sizes@, Err(e@), Err(e@)));
                        Err(e)
                    },
                }
            },
        }
    }
}

} // verus!
