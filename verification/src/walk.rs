//! Walking local and remote directories.
//!
//! A walk says what it needs next (a directory listed, a file read) and is told
//! the answer, so the one who runs it does the reading and writing.

use vstd::prelude::*;

use crate::connection::Connection;
use crate::device;
use crate::device::Device;
use crate::error;
use crate::error::ErrorView;
use crate::error::MpError;
use crate::files;
use crate::files::does_count;
use crate::files::is_one_of;
use crate::filter::IncludeFilter;
use crate::remote;
use crate::remote::join_remote;
use crate::replies;
use crate::replies::FileStat;
use crate::replies::StatView;
use crate::scripts;
use crate::session::SessionView;
use crate::text;
use crate::text::replace;
use crate::text::str_eq;

verus! {

// ---------------------------------------------------------------------------
// Local directories
// ---------------------------------------------------------------------------

/// What a local directory holds under one name.
#[derive(Debug)]
pub struct LocalEntry {
    pub name: String,
    pub is_dir: bool,
}

/// The mathematical value of a `LocalEntry`.
pub struct LocalView {
    pub name: Seq<char>,
    pub is_dir: bool,
}

impl View for LocalEntry {
    type V = LocalView;

    open spec fn view(&self) -> LocalView {
        LocalView { name: self.name@, is_dir: self.is_dir }
    }
}

/// The values of local entries.
pub open spec fn local_views(v: Seq<LocalEntry>) -> Seq<LocalView> {
    Seq::new(v.len(), |i: int| v[i]@)
}

/// The relative path of what is called `name` in a directory with a relative path.
pub open spec fn local_child(rel: Seq<char>, name: Seq<char>) -> Seq<char> {
    if rel.len() == 0 {
        name
    } else {
        rel + "/"@ + name
    }
}

/// Joins a relative path and a name.
pub fn join_local(rel: &str, name: &str) -> (r: String)
    ensures
        r@ == local_child(rel@, name@),
{
    if rel.is_empty() {
        name.to_owned()
    } else {
        let mut s: String = rel.to_owned();
        s.append("/");
        s.append(name);
        s
    }
}

/// Where a walk over local files is: the directories that are still to be listed,
/// the next one last, and the paths of the files found.
pub struct LocalSearch {
    pub pending: Seq<Seq<char>>,
    pub found: Seq<Seq<char>>,
}

/// The paths with one more, unless it is among them.
pub open spec fn with_path(paths: Seq<Seq<char>>, path: Seq<char>) -> Seq<Seq<char>> {
    if paths.contains(path) {
        paths
    } else {
        paths.push(path)
    }
}

fn has_path(paths: &Vec<String>, path: &str) -> (r: bool)
    ensures
        r == scripts::strings(paths@).contains(path@),
{
    let mut i: usize = 0;
    while i < paths.len()
        invariant
            i <= paths@.len(),
            forall|j: int| 0 <= j < i ==> scripts::strings(paths@)[j] != path@,
        decreases paths@.len() - i,
    {
        assert(scripts::strings(paths@)[i as int] == paths@[i as int]@);
        if str_eq(paths[i].as_str(), path) {
            return true;
        }
        i = i + 1;
    }
    false
}

/// The search after the entries of the directory `dir`.
pub open spec fn local_listed(
    s: LocalSearch,
    dir: Seq<char>,
    entries: Seq<LocalView>,
    excludes: Seq<Seq<char>>,
    paths: Option<Set<Seq<char>>>,
) -> LocalSearch
    decreases entries.len(),
{
    if entries.len() == 0 {
        s
    } else {
        let t = local_listed(s, dir, entries.drop_last(), excludes, paths);
        let e = entries.last();
        let path = local_child(dir, e.name);
        if excludes.contains(e.name) {
            t
        } else if e.is_dir {
            LocalSearch { pending: t.pending.push(path), found: t.found }
        } else if files::counts(paths, path) {
            LocalSearch { pending: t.pending, found: with_path(t.found, path) }
        } else {
            t
        }
    }
}

/// The search after the next directory was listed.
pub open spec fn local_on(
    s: LocalSearch,
    entries: Seq<LocalView>,
    excludes: Seq<Seq<char>>,
    paths: Option<Set<Seq<char>>>,
) -> LocalSearch {
    local_listed(
        LocalSearch { pending: s.pending.drop_last(), found: s.found },
        s.pending.last(),
        entries,
        excludes,
        paths,
    )
}

/// A walk over the files below a local directory.
pub struct LocalWalk {
    pending: Vec<String>,
    found: Vec<String>,
}

impl View for LocalWalk {
    type V = LocalSearch;

    closed spec fn view(&self) -> LocalSearch {
        LocalSearch {
            pending: scripts::strings(self.pending@),
            found: scripts::strings(self.found@),
        }
    }
}

impl LocalWalk {
    /// No file was found twice.
    pub open spec fn wf(&self) -> bool {
        self@.found.no_duplicates()
    }

    /// A walk that begins at the directory itself, whose relative path is empty.
    pub fn new() -> (r: LocalWalk)
        ensures
            r@ == (LocalSearch { pending: seq![Seq::empty()], found: Seq::empty() }),
            r.wf(),
    {
        let mut pending: Vec<String> = Vec::new();
        pending.push(String::new());
        let r: LocalWalk = LocalWalk { pending, found: Vec::new() };
        assert(r@.pending =~= seq![Seq::empty()]);
        assert(r@.found =~= Seq::empty());
        r
    }

    /// The relative path of the directory to be listed next, if there is one.
    pub fn next_dir(&self) -> (r: Option<String>)
        ensures
            match r {
                Some(dir) => self@.pending.len() > 0 && dir@ == self@.pending.last(),
                None => self@.pending.len() == 0,
            },
    {
        let n: usize = self.pending.len();
        if n == 0 {
            None
        } else {
            Some(self.pending[n - 1].as_str().to_owned())
        }
    }

    /// Takes in what the next directory holds. Directories with an excluded name
    /// are passed over; all others are listed later, since a matching file might
    /// be deeper.
    pub fn listed(
        &mut self,
        entries: &[LocalEntry],
        excludes: &[&str],
        filter: Option<&IncludeFilter>,
    )
        requires
            old(self)@.pending.len() > 0,
        ensures
            final(self)@ == local_on(
                old(self)@,
                local_views(entries@),
                files::strs(excludes@),
                files::let_through(filter),
            ),
            old(self).wf() ==> final(self).wf(),
    {
        let ghost before = self@;
        let ghost all = local_views(entries@);
        let ghost ex = files::strs(excludes@);
        let ghost paths = files::let_through(filter);
        let dir: String = self.pending.pop().unwrap();
        let ghost start = LocalSearch { pending: before.pending.drop_last(), found: before.found };
        assert(self@.pending =~= start.pending);
        assert(all.take(0).len() == 0);
        let mut i: usize = 0;
        while i < entries.len()
            invariant
                i <= entries.len(),
                all == local_views(entries@),
                ex == files::strs(excludes@),
                paths == files::let_through(filter),
                self@ == local_listed(start, dir@, all.take(i as int), ex, paths),
                old(self).wf() ==> self.wf(),
            decreases entries.len() - i,
        {
            let ghost now = self@;
            assert(all.take(i + 1).drop_last() =~= all.take(i as int));
            assert(all.take(i + 1).last() == entries@[i as int]@);
            let name: &str = entries[i].name.as_str();
            if !is_one_of(excludes, name) {
                let path: String = join_local(dir.as_str(), name);
                if entries[i].is_dir {
                    let ghost p = path@;
                    self.pending.push(path);
                    assert(self@.pending =~= now.pending.push(p));
                } else if does_count(filter, path.as_str()) {
                    if !has_path(&self.found, path.as_str()) {
                        let ghost p = path@;
                        self.found.push(path);
                        assert(self@.found =~= now.found.push(p));
                    }
                }
            }
            i = i + 1;
        }
        assert(all.take(i as int) =~= all);
    }

    /// The relative paths of the files that were found.
    pub fn into_paths(self) -> (r: Vec<String>)
        ensures
            scripts::strings(r@) == self@.found,
    {
        self.found
    }
}

// ---------------------------------------------------------------------------
// Uploading a directory
// ---------------------------------------------------------------------------

/// What is still to be uploaded.
pub enum PutItem {
    /// A directory that is to be created on the device.
    Dir { rel: String, remote: String },
    /// A directory that is to be listed.
    Open { rel: String, remote: String },
    /// A file.
    File { rel: String, remote: String },
}

/// The mathematical value of a `PutItem`.
pub enum PutItemView {
    Dir { rel: Seq<char>, remote: Seq<char> },
    Open { rel: Seq<char>, remote: Seq<char> },
    File { rel: Seq<char>, remote: Seq<char> },
}

impl View for PutItem {
    type V = PutItemView;

    open spec fn view(&self) -> PutItemView {
        match *self {
            PutItem::Dir { rel, remote } => PutItemView::Dir { rel: rel@, remote: remote@ },
            PutItem::Open { rel, remote } => PutItemView::Open { rel: rel@, remote: remote@ },
            PutItem::File { rel, remote } => PutItemView::File { rel: rel@, remote: remote@ },
        }
    }
}

/// The values of items.
pub open spec fn put_views(v: Seq<PutItem>) -> Seq<PutItemView> {
    Seq::new(v.len(), |i: int| v[i]@)
}

/// How far an upload has come: what is still to be done, the next item last, and
/// how many files were uploaded.
pub struct PutState {
    pub pending: Seq<PutItemView>,
    pub count: nat,
}

/// One more, as far as the counter goes.
pub open spec fn one_more(n: nat) -> nat {
    if n < usize::MAX {
        n + 1
    } else {
        n
    }
}

/// The items for the entries of a directory, the first entry last. Entries with an
/// excluded name are left out, and files that do not count; for the filter a
/// backslash in a path separates like `/`.
pub open spec fn put_children(
    rel: Seq<char>,
    remote: Seq<char>,
    entries: Seq<LocalView>,
    excludes: Seq<Seq<char>>,
    paths: Option<Set<Seq<char>>>,
) -> Seq<PutItemView>
    decreases entries.len(),
{
    if entries.len() == 0 {
        Seq::empty()
    } else {
        let rest = put_children(rel, remote, entries.skip(1), excludes, paths);
        let e = entries[0];
        let path = local_child(rel, e.name);
        let target = remote::child(remote, e.name);
        if excludes.contains(e.name) {
            rest
        } else if e.is_dir {
            rest.push(PutItemView::Dir { rel: path, remote: target })
        } else if files::counts(paths, text::replaced(path, '\\', '/')) {
            rest.push(PutItemView::File { rel: path, remote: target })
        } else {
            rest
        }
    }
}

/// An upload after it was told what a directory holds. It minds that only where it
/// asked for it.
pub open spec fn put_listed(
    s: PutState,
    entries: Seq<LocalView>,
    excludes: Seq<Seq<char>>,
    paths: Option<Set<Seq<char>>>,
) -> PutState {
    match s.pending.last() {
        PutItemView::Open { rel, remote } if s.pending.len() > 0 => PutState {
            pending: s.pending.drop_last() + put_children(rel, remote, entries, excludes, paths),
            count: s.count,
        },
        _ => s,
    }
}

/// What an upload needs next.
#[derive(Debug)]
pub enum PutAction {
    /// The entries of a local directory.
    ListDir { rel: String },
    /// The content of a local file.
    ReadFile { rel: String },
    /// Nothing: all files were uploaded.
    Finished { count: usize },
}

/// The mathematical value of a `PutAction`.
pub enum PutActionView {
    ListDir { rel: Seq<char> },
    ReadFile { rel: Seq<char> },
    Finished { count: nat },
}

impl View for PutAction {
    type V = PutActionView;

    open spec fn view(&self) -> PutActionView {
        match *self {
            PutAction::ListDir { rel } => PutActionView::ListDir { rel: rel@ },
            PutAction::ReadFile { rel } => PutActionView::ReadFile { rel: rel@ },
            PutAction::Finished { count } => PutActionView::Finished { count: count as nat },
        }
    }
}

/// The upload of a local directory.
pub struct PutWalk {
    pending: Vec<PutItem>,
    count: usize,
}

impl View for PutWalk {
    type V = PutState;

    closed spec fn view(&self) -> PutState {
        PutState { pending: put_views(self.pending@), count: self.count as nat }
    }
}

/// An upload was asked what it needs. A directory is created on the device first;
/// it does not matter whether that succeeds.
pub open spec fn put_steps(
    pre: SessionView,
    s: PutState,
    post: SessionView,
    t: PutState,
    a: PutActionView,
) -> bool {
    if s.pending.len() == 0 {
        post == pre && t == s && a == (PutActionView::Finished { count: s.count })
    } else {
        match s.pending.last() {
            PutItemView::Dir { rel, remote } => {
                &&& makes_some_dir(pre, remote, post)
                &&& t == (PutState {
                    pending: s.pending.drop_last().push(PutItemView::Open { rel, remote }),
                    count: s.count,
                })
                &&& a == (PutActionView::ListDir { rel })
            },
            PutItemView::Open { rel, remote } => {
                &&& post == pre
                &&& t == s
                &&& a == (PutActionView::ListDir { rel })
            },
            PutItemView::File { rel, remote } => {
                &&& post == pre
                &&& t == s
                &&& a == (PutActionView::ReadFile { rel })
            },
        }
    }
}

/// A directory was created, or could not be.
pub open spec fn makes_some_dir(pre: SessionView, path: Seq<char>, post: SessionView) -> bool {
    exists|r: Result<(), ErrorView>| #[trigger] device::makes_dir(pre, path, post, r)
}

impl PutWalk {
    /// The upload of a directory to `remote_dir`. `prefix` is the path of the
    /// directory below the one that the filter speaks of.
    pub fn new(prefix: &str, remote_dir: &str) -> (r: PutWalk)
        ensures
            r@ == (PutState {
                pending: seq![PutItemView::Dir { rel: prefix@, remote: remote_dir@ }],
                count: 0,
            }),
    {
        let mut pending: Vec<PutItem> = Vec::new();
        pending.push(PutItem::Dir { rel: prefix.to_owned(), remote: remote_dir.to_owned() });
        let r: PutWalk = PutWalk { pending, count: 0 };
        assert(r@.pending =~= seq![PutItemView::Dir { rel: prefix@, remote: remote_dir@ }]);
        r
    }

    /// Takes in what the directory that was asked for holds.
    pub fn listed(
        &mut self,
        entries: &[LocalEntry],
        excludes: &[&str],
        filter: Option<&IncludeFilter>,
    )
        ensures
            final(self)@ == put_listed(
                old(self)@,
                local_views(entries@),
                files::strs(excludes@),
                files::let_through(filter),
            ),
    {
        let n: usize = self.pending.len();
        if n == 0 {
            return;
        }
        let ghost before = self@;
        assert(before.pending.last() == self.pending@[n - 1]@);
        let (rel, remote): (String, String) = match &self.pending[n - 1] {
            PutItem::Open { rel, remote } => (
                rel.as_str().to_owned(),
                remote.as_str().to_owned(),
            ),
            _ => {
                return;
            },
        };
        let _ = self.pending.pop();
        let ghost base = self@.pending;
        assert(base =~= before.pending.drop_last());
        let ghost all = local_views(entries@);
        let ghost ex = files::strs(excludes@);
        let ghost paths = files::let_through(filter);
        let mut i: usize = entries.len();
        assert(all.skip(i as int).len() == 0);
        assert(base + put_children(rel@, remote@, all.skip(i as int), ex, paths) =~= base);
        while i > 0
            invariant
                i <= entries.len(),
                all == local_views(entries@),
                ex == files::strs(excludes@),
                paths == files::let_through(filter),
                self@.pending == base + put_children(rel@, remote@, all.skip(i as int), ex, paths),
                self@.count == before.count,
            decreases i,
        {
            let ghost rest = put_children(rel@, remote@, all.skip(i as int), ex, paths);
            let ghost now = self@.pending;
            assert(all.skip(i - 1)[0] == entries@[i - 1]@);
            assert(all.skip(i - 1).skip(1) =~= all.skip(i as int));
            let name: &str = entries[i - 1].name.as_str();
            if !is_one_of(excludes, name) {
                let path: String = join_local(rel.as_str(), name);
                let target: String = join_remote(remote.as_str(), name);
                if entries[i - 1].is_dir {
                    let item: PutItem = PutItem::Dir { rel: path, remote: target };
                    self.pending.push(item);
                    assert(self@.pending =~= now.push(item@));
                    assert(now.push(item@) =~= base + rest.push(item@));
                } else if does_count(filter, replace(path.as_str(), '\\', '/').as_str()) {
                    let item: PutItem = PutItem::File { rel: path, remote: target };
                    self.pending.push(item);
                    assert(self@.pending =~= now.push(item@));
                    assert(now.push(item@) =~= base + rest.push(item@));
                }
            }
            i = i - 1;
        }
        assert(all.skip(0) =~= all);
    }
}

/// A file of an upload was written. It counts if that succeeded.
pub open spec fn put_writes(
    pre: SessionView,
    s: PutState,
    data: Seq<u8>,
    post: SessionView,
    t: PutState,
    r: Result<(), ErrorView>,
) -> bool {
    match s.pending.last() {
        PutItemView::File { rel, remote } if s.pending.len() > 0 => {
            &&& device::writes(pre, remote, data, post, r)
            &&& t == (PutState {
                pending: s.pending.drop_last(),
                count: match r {
                    Ok(_) => one_more(s.count),
                    Err(_) => s.count,
                },
            })
        },
        _ => post == pre && t == s && r is Ok,
    }
}

impl<C: Connection> Device<C> {
    /// Tells what an upload needs next. A new directory is created on the device.
    pub fn put_step(&mut self, walk: &mut PutWalk) -> (a: PutAction)
        ensures
            put_steps(old(self)@, old(walk)@, final(self)@, final(walk)@, a@),
    {
        let n: usize = walk.pending.len();
        if n == 0 {
            return PutAction::Finished { count: walk.count };
        }
        let ghost before = walk@;
        assert(before.pending.last() == walk.pending@[n - 1]@);
        let (rel, remote): (String, String) = match &walk.pending[n - 1] {
            PutItem::Dir { rel, remote } => (rel.as_str().to_owned(), remote.as_str().to_owned()),
            PutItem::Open { rel, .. } => {
                return PutAction::ListDir { rel: rel.as_str().to_owned() };
            },
            PutItem::File { rel, .. } => {
                return PutAction::ReadFile { rel: rel.as_str().to_owned() };
            },
        };
        let made: Result<(), MpError> = self.mkdir(remote.as_str());
        assert(device::makes_dir(old(self)@, remote@, self@, error::outcome(made)));
        assert(makes_some_dir(old(self)@, remote@, self@));
        let _ = walk.pending.pop();
        assert(walk@.pending =~= before.pending.drop_last());
        let item: PutItem = PutItem::Open { rel: rel.as_str().to_owned(), remote };
        walk.pending.push(item);
        assert(walk@.pending =~= before.pending.drop_last().push(item@));
        PutAction::ListDir { rel }
    }

    /// Writes the file that an upload asked for.
    pub fn put_file(&mut self, walk: &mut PutWalk, data: &[u8]) -> (r: Result<(), MpError>)
        ensures
            put_writes(
                old(self)@,
                old(walk)@,
                data@,
                final(self)@,
                final(walk)@,
                error::outcome(r),
            ),
    {
        let n: usize = walk.pending.len();
        if n == 0 {
            return Ok(());
        }
        let ghost before = walk@;
        assert(before.pending.last() == walk.pending@[n - 1]@);
        let remote: String = match &walk.pending[n - 1] {
            PutItem::File { remote, .. } => remote.as_str().to_owned(),
            _ => {
                return Ok(());
            },
        };
        let _ = walk.pending.pop();
        assert(walk@.pending =~= before.pending.drop_last());
        let r: Result<(), MpError> = self.write_file_bytes(remote.as_str(), data);
        if r.is_ok() && walk.count < usize::MAX {
            walk.count = walk.count + 1;
        }
        r
    }
}

// ---------------------------------------------------------------------------
// Downloading a directory
// ---------------------------------------------------------------------------

/// What is still to be downloaded: a path on the device, and the names that lead
/// to its local counterpart.
pub enum GetItem {
    /// A directory that is to be created locally.
    Dir { remote: String, names: Vec<String> },
    /// A directory that is to be listed.
    Open { remote: String, names: Vec<String> },
    /// A name in a directory.
    Entry { remote: String, names: Vec<String> },
}

/// The mathematical value of a `GetItem`.
pub enum GetItemView {
    Dir { remote: Seq<char>, names: Seq<Seq<char>> },
    Open { remote: Seq<char>, names: Seq<Seq<char>> },
    Entry { remote: Seq<char>, names: Seq<Seq<char>> },
}

impl View for GetItem {
    type V = GetItemView;

    open spec fn view(&self) -> GetItemView {
        match *self {
            GetItem::Dir { remote, names } => GetItemView::Dir {
                remote: remote@,
                names: scripts::strings(names@),
            },
            GetItem::Open { remote, names } => GetItemView::Open {
                remote: remote@,
                names: scripts::strings(names@),
            },
            GetItem::Entry { remote, names } => GetItemView::Entry {
                remote: remote@,
                names: scripts::strings(names@),
            },
        }
    }
}

/// The values of items.
pub open spec fn get_views(v: Seq<GetItem>) -> Seq<GetItemView> {
    Seq::new(v.len(), |i: int| v[i]@)
}

/// How far a download has come: what is still to be done, the next item last, and
/// how many files were downloaded.
pub struct GetState {
    pub pending: Seq<GetItemView>,
    pub count: nat,
}

/// The items for the names in a directory, the first name last.
pub open spec fn get_children(
    remote: Seq<char>,
    names: Seq<Seq<char>>,
    listed: Seq<Seq<char>>,
) -> Seq<GetItemView>
    decreases listed.len(),
{
    if listed.len() == 0 {
        Seq::empty()
    } else {
        get_children(remote, names, listed.skip(1)).push(
            GetItemView::Entry {
                remote: remote::child(remote, listed[0]),
                names: names.push(listed[0]),
            },
        )
    }
}

/// What a download needs next, or has to tell. Names lead from the local directory
/// to the one that is meant.
#[derive(Debug)]
pub enum GetAction {
    /// A local directory is to be created.
    CreateDir { names: Vec<String> },
    /// A local file is to be written.
    Save { names: Vec<String>, data: Vec<u8> },
    /// Nothing: the download goes on.
    GoOn,
    /// Nothing: all files were downloaded.
    Finished { count: usize },
}

/// The mathematical value of a `GetAction`.
pub enum GetActionView {
    CreateDir { names: Seq<Seq<char>> },
    Save { names: Seq<Seq<char>>, data: Seq<u8> },
    GoOn,
    Finished { count: nat },
}

impl View for GetAction {
    type V = GetActionView;

    open spec fn view(&self) -> GetActionView {
        match *self {
            GetAction::CreateDir { names } => GetActionView::CreateDir {
                names: scripts::strings(names@),
            },
            GetAction::Save { names, data } => GetActionView::Save {
                names: scripts::strings(names@),
                data: data@,
            },
            GetAction::GoOn => GetActionView::GoOn,
            GetAction::Finished { count } => GetActionView::Finished { count: count as nat },
        }
    }
}

/// The download of a directory on the device.
pub struct GetWalk {
    pending: Vec<GetItem>,
    count: usize,
}

impl View for GetWalk {
    type V = GetState;

    closed spec fn view(&self) -> GetState {
        GetState { pending: get_views(self.pending@), count: self.count as nat }
    }
}

/// Whether a status is that of a directory. What has no status is none.
pub open spec fn says_dir(stat: Result<StatView, ErrorView>) -> bool {
    match stat {
        Ok(s) => s.is_dir,
        Err(_) => false,
    }
}

/// What a listing of a directory makes of a download.
pub open spec fn get_listed(
    s: GetState,
    remote: Seq<char>,
    names: Seq<Seq<char>>,
    listed: Result<Seq<Seq<char>>, ErrorView>,
    t: GetState,
    r: Result<GetActionView, ErrorView>,
) -> bool {
    match listed {
        Ok(found) => {
            &&& t == (GetState {
                pending: s.pending.drop_last() + get_children(remote, names, found),
                count: s.count,
            })
            &&& r == Ok::<GetActionView, ErrorView>(GetActionView::GoOn)
        },
        Err(e) => {
            &&& t == (GetState { pending: s.pending.drop_last(), count: s.count })
            &&& r == Err::<GetActionView, ErrorView>(e)
        },
    }
}

/// What the content of a file makes of a download.
pub open spec fn get_read(
    s: GetState,
    names: Seq<Seq<char>>,
    data: Result<Seq<u8>, ErrorView>,
    t: GetState,
    r: Result<GetActionView, ErrorView>,
) -> bool {
    match data {
        Ok(bytes) => {
            &&& t == (GetState { pending: s.pending.drop_last(), count: one_more(s.count) })
            &&& r == Ok::<GetActionView, ErrorView>(GetActionView::Save { names, data: bytes })
        },
        Err(e) => {
            &&& t == (GetState { pending: s.pending.drop_last(), count: s.count })
            &&& r == Err::<GetActionView, ErrorView>(e)
        },
    }
}

/// What a directory among the names makes of a download.
pub open spec fn get_entered(
    s: GetState,
    remote: Seq<char>,
    names: Seq<Seq<char>>,
    t: GetState,
    r: Result<GetActionView, ErrorView>,
) -> bool {
    &&& t == (GetState {
        pending: s.pending.drop_last().push(GetItemView::Dir { remote, names }),
        count: s.count,
    })
    &&& r == Ok::<GetActionView, ErrorView>(GetActionView::GoOn)
}

/// A directory of a download was listed.
pub open spec fn get_lists(
    pre: SessionView,
    s: GetState,
    remote: Seq<char>,
    names: Seq<Seq<char>>,
    post: SessionView,
    t: GetState,
    r: Result<GetActionView, ErrorView>,
) -> bool {
    exists|listed: Result<Seq<Seq<char>>, ErrorView>| #[trigger]
        device::lists(pre, remote, post, listed) && get_listed(s, remote, names, listed, t, r)
}

/// A file of a download was read.
pub open spec fn get_reads(
    pre: SessionView,
    s: GetState,
    remote: Seq<char>,
    names: Seq<Seq<char>>,
    post: SessionView,
    t: GetState,
    r: Result<GetActionView, ErrorView>,
) -> bool {
    exists|data: Result<Seq<u8>, ErrorView>| #[trigger]
        device::reads(pre, remote, post, data) && get_read(s, names, data, t, r)
}

/// A name in a directory of a download was looked at.
pub open spec fn get_enters(
    pre: SessionView,
    s: GetState,
    remote: Seq<char>,
    names: Seq<Seq<char>>,
    post: SessionView,
    t: GetState,
    r: Result<GetActionView, ErrorView>,
) -> bool {
    exists|m: SessionView, stat: Result<StatView, ErrorView>| #[trigger]
        device::stats(pre, remote, m, stat) && if says_dir(stat) {
            post == m && get_entered(s, remote, names, t, r)
        } else {
            get_reads(m, s, remote, names, post, t, r)
        }
}

/// A download made a step: a directory is created locally and then listed; a name
/// in it is a directory again, or else a file that is read.
pub open spec fn get_steps(
    pre: SessionView,
    s: GetState,
    post: SessionView,
    t: GetState,
    r: Result<GetActionView, ErrorView>,
) -> bool {
    if s.pending.len() == 0 {
        post == pre && t == s && r == Ok::<GetActionView, ErrorView>(
            GetActionView::Finished { count: s.count },
        )
    } else {
        match s.pending.last() {
            GetItemView::Dir { remote, names } => {
                &&& post == pre
                &&& t == (GetState {
                    pending: s.pending.drop_last().push(GetItemView::Open { remote, names }),
                    count: s.count,
                })
                &&& r == Ok::<GetActionView, ErrorView>(GetActionView::CreateDir { names })
            },
            GetItemView::Open { remote, names } => get_lists(pre, s, remote, names, post, t, r),
            GetItemView::Entry { remote, names } => get_enters(pre, s, remote, names, post, t, r),
        }
    }
}

/// Copies names.
fn copy_names(names: &Vec<String>) -> (r: Vec<String>)
    ensures
        scripts::strings(r@) == scripts::strings(names@),
{
    let ghost all = scripts::strings(names@);
    let mut r: Vec<String> = Vec::new();
    let mut i: usize = 0;
    assert(scripts::strings(r@) =~= all.take(0));
    while i < names.len()
        invariant
            i <= names.len(),
            all == scripts::strings(names@),
            scripts::strings(r@) == all.take(i as int),
        decreases names.len() - i,
    {
        let ghost before = r@;
        let name: String = names[i].as_str().to_owned();
        let ghost text = name@;
        r.push(name);
        assert(scripts::strings(r@) =~= scripts::strings(before).push(text));
        assert(all.take(i + 1) =~= all.take(i as int).push(text));
        i = i + 1;
    }
    assert(all.take(i as int) =~= all);
    r
}

impl GetWalk {
    /// The download of the directory `remote_dir`.
    pub fn new(remote_dir: &str) -> (r: GetWalk)
        ensures
            r@ == (GetState {
                pending: seq![GetItemView::Dir { remote: remote_dir@, names: Seq::empty() }],
                count: 0,
            }),
    {
        let mut pending: Vec<GetItem> = Vec::new();
        let names: Vec<String> = Vec::new();
        assert(scripts::strings(names@) =~= Seq::empty());
        pending.push(GetItem::Dir { remote: remote_dir.to_owned(), names });
        let r: GetWalk = GetWalk { pending, count: 0 };
        assert(r@.pending =~= seq![
            GetItemView::Dir { remote: remote_dir@, names: Seq::empty() },
        ]);
        r
    }

    fn push_children(&mut self, remote: &str, names: &Vec<String>, listed: &Vec<String>)
        ensures
            final(self)@ == (GetState {
                pending: old(self)@.pending + get_children(
                    remote@,
                    scripts::strings(names@),
                    scripts::strings(listed@),
                ),
                count: old(self)@.count,
            }),
    {
        let ghost base = self@.pending;
        let ghost all = scripts::strings(listed@);
        let ghost path = scripts::strings(names@);
        let mut i: usize = listed.len();
        assert(all.skip(i as int).len() == 0);
        assert(base + get_children(remote@, path, all.skip(i as int)) =~= base);
        while i > 0
            invariant
                i <= listed.len(),
                all == scripts::strings(listed@),
                path == scripts::strings(names@),
                self@.pending == base + get_children(remote@, path, all.skip(i as int)),
                self@.count == old(self)@.count,
            decreases i,
        {
            let ghost now = self@.pending;
            let ghost rest = get_children(remote@, path, all.skip(i as int));
            assert(all.skip(i - 1)[0] == listed@[i - 1]@);
            assert(all.skip(i - 1).skip(1) =~= all.skip(i as int));
            let name: &str = listed[i - 1].as_str();
            let mut longer: Vec<String> = copy_names(names);
            let ghost copied = longer@;
            longer.push(name.to_owned());
            assert(scripts::strings(longer@) =~= path.push(name@));
            let item: GetItem = GetItem::Entry { remote: join_remote(remote, name), names: longer };
            self.pending.push(item);
            assert(self@.pending =~= now.push(item@));
            assert(now.push(item@) =~= base + rest.push(item@));
            i = i - 1;
        }
        assert(all.skip(0) =~= all);
    }
}

impl<C: Connection> Device<C> {
    /// Makes a step of a download.
    pub fn get_step(&mut self, walk: &mut GetWalk) -> (r: Result<GetAction, MpError>)
        ensures
            get_steps(
                old(self)@,
                old(walk)@,
                final(self)@,
                final(walk)@,
                error::outcome(r),
            ),
    {
        let ghost pre = self@;
        let ghost s = walk@;
        let n: usize = walk.pending.len();
        if n == 0 {
            return Ok(GetAction::Finished { count: walk.count });
        }
        assert(s.pending.last() == walk.pending@[n - 1]@);
        let top: GetItem = walk.pending.pop().unwrap();
        assert(walk@.pending =~= s.pending.drop_last());
        match top {
            GetItem::Dir { remote, names } => {
                let copy: Vec<String> = copy_names(&names);
                let item: GetItem = GetItem::Open { remote, names };
                walk.pending.push(item);
                assert(walk@.pending =~= s.pending.drop_last().push(item@));
                Ok(GetAction::CreateDir { names: copy })
            },
            GetItem::Open { remote, names } => {
                match self.list_dir(remote.as_str()) {
                    Ok(listed) => {
                        let ghost found = scripts::strings(listed@);
                        assert(device::lists(pre, remote@, self@, Ok(found)));
                        walk.push_children(remote.as_str(), &names, &listed);
                        assert(get_lists(
                            pre,
                            s,
                            remote@,
                            scripts::strings(names@),
                            self@,
                            walk@,
                            Ok(GetActionView::GoOn),
                        ));
                        Ok(GetAction::GoOn)
                    },
                    Err(e) => {
                        assert(device::lists(pre, remote@, self@, Err(e@)));
                        assert(get_lists(
                            pre,
                            s,
                            remote@,
                            scripts::strings(names@),
                            self@,
                            walk@,
                            Err(e@),
                        ));
                        Err(e)
                    },
                }
            },
            GetItem::Entry { remote, names } => {
                let ghost path = scripts::strings(names@);
                let stat: Result<FileStat, MpError> = self.stat(remote.as_str());
                let ghost m = self@;
                assert(device::stats(pre, remote@, m, error::outcome(stat)));
                let is_dir: bool = match &stat {
                    Ok(st) => st.is_dir,
                    Err(_) => false,
                };
                assert(is_dir == says_dir(error::outcome(stat)));
                let ghost from = remote@;
                if is_dir {
                    let item: GetItem = GetItem::Dir { remote, names };
                    walk.pending.push(item);
                    assert(walk@.pending =~= s.pending.drop_last().push(item@));
                    assert(get_enters(pre, s, from, path, self@, walk@, Ok(GetActionView::GoOn)));
                    return Ok(GetAction::GoOn);
                }
                match self.read_file(remote.as_str()) {
                    Ok(data) => {
                        assert(device::reads(m, from, self@, Ok(data@)));
                        if walk.count < usize::MAX {
                            walk.count = walk.count + 1;
                        }
                        let ghost a = GetActionView::Save { names: path, data: data@ };
                        assert(get_reads(m, s, from, path, self@, walk@, Ok(a)));
                        assert(get_enters(pre, s, from, path, self@, walk@, Ok(a)));
                        Ok(GetAction::Save { names, data })
                    },
                    Err(e) => {
                        assert(device::reads(m, from, self@, Err(e@)));
                        assert(get_reads(m, s, from, path, self@, walk@, Err(e@)));
                        assert(get_enters(pre, s, from, path, self@, walk@, Err(e@)));
                        Err(e)
                    },
                }
            },
        }
    }
}

} // verus!
