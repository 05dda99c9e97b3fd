//! What a sync uploads and deletes, and how two sides differ.

use vstd::prelude::*;

use crate::files;
use crate::files::is_before;
use crate::files::FileSizes;
use crate::files::FileView;
use crate::text::str_eq;

verus! {

// ---------------------------------------------------------------------------
// Syncing
// ---------------------------------------------------------------------------

/// A single file action performed (or proposed) during sync.
#[derive(Debug)]
pub struct SyncAction {
    /// Relative path of the file.
    pub path: String,
    /// What happened: "upload", "delete".
    pub action: String,
    /// File size in bytes (for uploads: local size; for deletes: remote size).
    pub size: u64,
}

/// The mathematical value of a `SyncAction`.
pub struct ActionView {
    pub path: Seq<char>,
    pub action: Seq<char>,
    pub size: u64,
}

impl View for SyncAction {
    type V = ActionView;

    open spec fn view(&self) -> ActionView {
        ActionView { path: self.path@, action: self.action@, size: self.size }
    }
}

/// Result of a sync operation.
#[derive(Debug)]
pub struct SyncStats {
    pub uploaded: usize,
    pub downloaded: usize,
    pub deleted: usize,
    /// Per-file actions taken (or would-be-taken in dry-run mode).
    pub actions: Vec<SyncAction>,
}

/// The mathematical value of a `SyncStats`.
pub struct StatsView {
    pub uploaded: nat,
    pub downloaded: nat,
    pub deleted: nat,
    pub actions: Seq<ActionView>,
}

/// The values of actions.
pub open spec fn action_views(v: Seq<SyncAction>) -> Seq<ActionView> {
    Seq::new(v.len(), |i: int| v[i]@)
}

impl View for SyncStats {
    type V = StatsView;

    open spec fn view(&self) -> StatsView {
        StatsView {
            uploaded: self.uploaded as nat,
            downloaded: self.downloaded as nat,
            deleted: self.deleted as nat,
            actions: action_views(self.actions@),
        }
    }
}

impl Default for SyncStats {
    fn default() -> (r: SyncStats)
        ensures
            r@ == (StatsView { uploaded: 0, downloaded: 0, deleted: 0, actions: Seq::empty() }),
    {
        let r: SyncStats = SyncStats { uploaded: 0, downloaded: 0, deleted: 0, actions: Vec::new() };
        assert(r@.actions =~= Seq::empty());
        r
    }
}

/// The upload of a file.
pub open spec fn upload_of(f: FileView) -> ActionView {
    ActionView { path: f.path, action: "upload"@, size: f.size }
}

/// The deletion of a file.
pub open spec fn deletion_of(f: FileView) -> ActionView {
    ActionView { path: f.path, action: "delete"@, size: f.size }
}

/// The uploads of the local files that are missing on the other side or have
/// another size there.
pub open spec fn uploads(local: Seq<FileView>, remote: Seq<FileView>) -> Seq<ActionView>
    decreases local.len(),
{
    if local.len() == 0 {
        Seq::empty()
    } else {
        let before = uploads(local.drop_last(), remote);
        let f = local.last();
        if files::size_in(remote, f.path) == Some(f.size) {
            before
        } else {
            before.push(upload_of(f))
        }
    }
}

/// The deletions of the remote files that are missing on the local side.
pub open spec fn deletions(remote: Seq<FileView>, local: Seq<FileView>) -> Seq<ActionView>
    decreases remote.len(),
{
    if remote.len() == 0 {
        Seq::empty()
    } else {
        let before = deletions(remote.drop_last(), local);
        let f = remote.last();
        if files::size_in(local, f.path) is Some {
            before
        } else {
            before.push(deletion_of(f))
        }
    }
}

/// What a sync does: uploads first, then deletions.
pub open spec fn plan(local: Seq<FileView>, remote: Seq<FileView>) -> StatsView {
    StatsView {
        uploaded: uploads(local, remote).len(),
        downloaded: 0,
        deleted: deletions(remote, local).len(),
        actions: uploads(local, remote) + deletions(remote, local),
    }
}

/// Finds out what a sync is to do.
pub fn plan_sync(local: &FileSizes, remote: &FileSizes) -> (r: SyncStats)
    ensures
        r@ == plan(local@, remote@),
{
    let mut actions: Vec<SyncAction> = Vec::new();
    let mut uploaded: usize = 0;
    let mut i: usize = 0;
    assert(action_views(actions@) =~= uploads(local@.take(0), remote@));
    while i < local.len()
        invariant
            i <= local@.len(),
            uploaded <= i,
            action_views(actions@) == uploads(local@.take(i as int), remote@),
            uploaded == actions@.len(),
        decreases local@.len() - i,
    {
        let ghost before = actions@;
        assert(local@.take(i + 1).drop_last() =~= local@.take(i as int));
        assert(local@.take(i + 1).last() == local@[i as int]);
        let path: &str = local.file(i).path.as_str();
        let size: u64 = local.file(i).size;
        let same: bool = match remote.get(path) {
            Some(n) => n == size,
            None => false,
        };
        if !same {
            let action: SyncAction = SyncAction {
                path: path.to_owned(),
                action: "upload".to_owned(),
                size,
            };
            actions.push(action);
            uploaded = uploaded + 1;
            assert(action_views(actions@) =~= action_views(before).push(action@));
        }
        i = i + 1;
    }
    assert(local@.take(i as int) =~= local@);
    let ghost first = action_views(actions@);
    let mut deleted: usize = 0;
    let mut j: usize = 0;
    assert(first + deletions(remote@.take(0), local@) =~= first);
    while j < remote.len()
        invariant
            j <= remote@.len(),
            deleted <= j,
            action_views(actions@) == first + deletions(remote@.take(j as int), local@),
            deleted == deletions(remote@.take(j as int), local@).len(),
        decreases remote@.len() - j,
    {
        let ghost before = actions@;
        assert(remote@.take(j + 1).drop_last() =~= remote@.take(j as int));
        assert(remote@.take(j + 1).last() == remote@[j as int]);
        let path: &str = remote.file(j).path.as_str();
        if local.get(path).is_none() {
            let action: SyncAction = SyncAction {
                path: path.to_owned(),
                action: "delete".to_owned(),
                size: remote.file(j).size,
            };
            actions.push(action);
            deleted = deleted + 1;
            proof {
                let done = deletions(remote@.take(j as int), local@);
                assert(action_views(actions@) =~= action_views(before).push(action@));
                assert((first + done).push(action@) =~= first + done.push(action@));
            }
        }
        j = j + 1;
    }
    assert(remote@.take(j as int) =~= remote@);
    SyncStats { uploaded, downloaded: 0, deleted, actions }
}

/// What the next action of a sync needs.
#[derive(Debug)]
pub enum SyncNeed {
    /// The content of a local file.
    Content { path: String },
    /// Nothing.
    Nothing,
    /// There is no next action.
    Finished,
}

/// The mathematical value of a `SyncNeed`.
pub enum NeedView {
    Content { path: Seq<char> },
    Nothing,
    Finished,
}

impl View for SyncNeed {
    type V = NeedView;

    open spec fn view(&self) -> NeedView {
        match *self {
            SyncNeed::Content { path } => NeedView::Content { path: path@ },
            SyncNeed::Nothing => NeedView::Nothing,
            SyncNeed::Finished => NeedView::Finished,
        }
    }
}

/// What a sync needs after `done` of its actions: an upload needs the content of
/// the file. A dry run performs no action.
pub open spec fn need_after(s: StatsView, done: nat, dry_run: bool) -> NeedView {
    if dry_run || done >= s.actions.len() {
        NeedView::Finished
    } else if s.actions[done as int].action == "upload"@ {
        NeedView::Content { path: s.actions[done as int].path }
    } else {
        NeedView::Nothing
    }
}

impl SyncStats {
    /// What is needed after `done` actions were performed.
    pub fn need(&self, done: usize, dry_run: bool) -> (r: SyncNeed)
        ensures
            r@ == need_after(self@, done as nat, dry_run),
    {
        if dry_run || done >= self.actions.len() {
            return SyncNeed::Finished;
        }
        assert(self@.actions[done as int] == self.actions@[done as int]@);
        if str_eq(self.actions[done].action.as_str(), "upload") {
            SyncNeed::Content { path: self.actions[done].path.as_str().to_owned() }
        } else {
            SyncNeed::Nothing
        }
    }
}

// ---------------------------------------------------------------------------
// Comparing
// ---------------------------------------------------------------------------

/// A single file difference between local and remote.
#[derive(Debug)]
pub struct DiffEntry {
    pub path: String,
    /// One of "new", "changed", "deleted".
    pub status: String,
    pub local_size: Option<u64>,
    pub remote_size: Option<u64>,
}

/// The mathematical value of a `DiffEntry`.
pub struct EntryView {
    pub path: Seq<char>,
    pub status: Seq<char>,
    pub local_size: Option<u64>,
    pub remote_size: Option<u64>,
}

impl View for DiffEntry {
    type V = EntryView;

    open spec fn view(&self) -> EntryView {
        EntryView {
            path: self.path@,
            status: self.status@,
            local_size: self.local_size,
            remote_size: self.remote_size,
        }
    }
}

/// Result of a diff operation.
#[derive(Debug)]
pub struct DiffResult {
    pub entries: Vec<DiffEntry>,
    pub new_count: usize,
    pub changed_count: usize,
    pub deleted_count: usize,
}

/// The mathematical value of a `DiffResult`.
pub struct DiffView {
    pub entries: Seq<EntryView>,
    pub new_count: nat,
    pub changed_count: nat,
    pub deleted_count: nat,
}

/// The values of differences.
pub open spec fn entry_views(v: Seq<DiffEntry>) -> Seq<EntryView> {
    Seq::new(v.len(), |i: int| v[i]@)
}

impl View for DiffResult {
    type V = DiffView;

    open spec fn view(&self) -> DiffView {
        DiffView {
            entries: entry_views(self.entries@),
            new_count: self.new_count as nat,
            changed_count: self.changed_count as nat,
            deleted_count: self.deleted_count as nat,
        }
    }
}

/// A file that exists on the local side only.
pub open spec fn new_entry(path: Seq<char>, size: u64) -> EntryView {
    EntryView { path, status: "new"@, local_size: Some(size), remote_size: None }
}

/// A file that has different sizes.
pub open spec fn changed_entry(path: Seq<char>, local: u64, remote: u64) -> EntryView {
    EntryView {
        path,
        status: "changed"@,
        local_size: Some(local),
        remote_size: Some(remote),
    }
}

/// A file that exists on the remote side only.
pub open spec fn deleted_entry(path: Seq<char>, size: u64) -> EntryView {
    EntryView { path, status: "deleted"@, local_size: None, remote_size: Some(size) }
}

/// How local files differ from the remote ones, in the order of the local files.
pub open spec fn local_entries(local: Seq<FileView>, remote: Seq<FileView>) -> Seq<EntryView>
    decreases local.len(),
{
    if local.len() == 0 {
        Seq::empty()
    } else {
        let before = local_entries(local.drop_last(), remote);
        let f = local.last();
        match files::size_in(remote, f.path) {
            None => before.push(new_entry(f.path, f.size)),
            Some(n) => if n == f.size {
                before
            } else {
                before.push(changed_entry(f.path, f.size, n))
            },
        }
    }
}

/// The remote files that do not exist on the local side, in the order of the
/// remote files.
pub open spec fn remote_entries(remote: Seq<FileView>, local: Seq<FileView>) -> Seq<EntryView>
    decreases remote.len(),
{
    if remote.len() == 0 {
        Seq::empty()
    } else {
        let before = remote_entries(remote.drop_last(), local);
        let f = remote.last();
        if files::size_in(local, f.path) is Some {
            before
        } else {
            before.push(deleted_entry(f.path, f.size))
        }
    }
}

/// All differences.
pub open spec fn all_entries(local: Seq<FileView>, remote: Seq<FileView>) -> Seq<EntryView> {
    local_entries(local, remote) + remote_entries(remote, local)
}

/// How many entries have a status.
pub open spec fn with_status(s: Seq<EntryView>, status: Seq<char>) -> nat
    decreases s.len(),
{
    if s.len() == 0 {
        0
    } else {
        with_status(s.drop_last(), status) + if s.last().status == status {
            1nat
        } else {
            0nat
        }
    }
}

/// Whether entries are in the order of their paths.
pub open spec fn in_order(s: Seq<EntryView>) -> bool {
    forall|i: int, j: int|
        0 <= i < j < s.len() ==> !files::precedes((#[trigger] s[j]).path, (#[trigger] s[i]).path)
}

/// Whether `d` is the comparison of two sides: all differences, in the order of
/// their paths, and counted by their status.
pub open spec fn compares(local: Seq<FileView>, remote: Seq<FileView>, d: DiffView) -> bool {
    let all = all_entries(local, remote);
    &&& d.entries.to_multiset() == all.to_multiset()
    &&& in_order(d.entries)
    &&& d.new_count == with_status(all, "new"@)
    &&& d.changed_count == with_status(all, "changed"@)
    &&& d.deleted_count == with_status(all, "deleted"@)
}

/// Puts one more entry where it belongs.
fn insert_entry(entries: &mut Vec<DiffEntry>, entry: DiffEntry)
    requires
        in_order(entry_views(old(entries)@)),
    ensures
        in_order(entry_views(final(entries)@)),
        entry_views(final(entries)@).to_multiset() == entry_views(
            old(entries)@,
        ).to_multiset().insert(entry@),
        final(entries)@.len() == old(entries)@.len() + 1,
{
    let ghost before = entry_views(entries@);
    let mut i: usize = entries.len();
    while i > 0 && is_before(entry.path.as_str(), entries[i - 1].path.as_str())
        invariant
            i <= entries@.len(),
            before == entry_views(entries@),
            forall|k: int|
                i <= k < before.len() ==> files::precedes(entry@.path, (#[trigger] before[k]).path),
        decreases i,
    {
        assert(before[i - 1] == entries@[i - 1]@);
        i = i - 1;
    }
    proof {
        if i > 0 {
            assert(before[i - 1] == entries@[i - 1]@);
            assert(!files::precedes(entry@.path, before[i - 1].path));
        }
    }
    entries.insert(i, entry);
    let ghost after = entry_views(entries@);
    proof {
        assert(after =~= before.insert(i as int, entry@));
        vstd::seq_lib::to_multiset_insert(before, i as int, entry@);
        assert forall|a: int, b: int| 0 <= a < b < after.len() implies !files::precedes(
            (#[trigger] after[b]).path,
            (#[trigger] after[a]).path,
        ) by {
            if a < i && b == i {
                assert(after[a] == before[a]);
                if a < i - 1 {
                    lemma_not_after(entry@.path, before[i - 1].path, before[a].path);
                }
            } else if a == i {
                assert(after[b] == before[b - 1]);
                if files::precedes(after[b].path, entry@.path) {
                    files::lemma_precedes_transitive(entry@.path, after[b].path, entry@.path);
                    files::lemma_precedes_irreflexive(entry@.path);
                }
            } else {
                let x = if a < i {
                    a
                } else {
                    a - 1
                };
                let y = if b < i {
                    b
                } else {
                    b - 1
                };
                assert(after[a] == before[x]);
                assert(after[b] == before[y]);
            }
        }
    }
}

/// If `a` does not precede `b` and `b` does not precede `c`, then `a` does not
/// precede `c`.
proof fn lemma_not_after(a: Seq<char>, b: Seq<char>, c: Seq<char>)
    requires
        !files::precedes(a, b),
        !files::precedes(b, c),
    ensures
        !files::precedes(a, c),
{
    if files::precedes(a, c) {
        files::lemma_precedes_total(a, b);
        files::lemma_precedes_total(b, c);
        if files::precedes(b, a) {
            files::lemma_precedes_transitive(b, a, c);
        }
    }
}

/// One more entry, and how the counts go on.
proof fn lemma_status_push(s: Seq<EntryView>, e: EntryView, status: Seq<char>)
    ensures
        with_status(s.push(e), status) == with_status(s, status) + if e.status == status {
            1nat
        } else {
            0nat
        },
        s.push(e).to_multiset() == s.to_multiset().insert(e),
{
    assert(s.push(e).drop_last() =~= s);
    vstd::seq_lib::to_multiset_build(s, e);
}

pub proof fn lemma_status_names()
    ensures
        "new"@ != "changed"@,
        "new"@ != "deleted"@,
        "changed"@ != "deleted"@,
{
    reveal_strlit("new");
    reveal_strlit("changed");
    reveal_strlit("deleted");
    assert("changed"@[0] == 'c');
    assert("deleted"@[0] == 'd');
    assert("new"@[0] == 'n');
}

/// The entries collected so far.
spec fn collected(d: DiffView, all: Seq<EntryView>) -> bool {
    &&& d.entries.to_multiset() == all.to_multiset()
    &&& d.entries.len() == all.len()
    &&& in_order(d.entries)
    &&& d.new_count == with_status(all, "new"@)
    &&& d.changed_count == with_status(all, "changed"@)
    &&& d.deleted_count == with_status(all, "deleted"@)
    &&& d.new_count + d.changed_count + d.deleted_count == all.len()
}

impl DiffResult {
    /// No differences.
    fn none() -> (r: DiffResult)
        ensures
            r@ == (DiffView {
                entries: Seq::empty(),
                new_count: 0,
                changed_count: 0,
                deleted_count: 0,
            }),
            collected(r@, Seq::empty()),
    {
        let r: DiffResult = DiffResult {
            entries: Vec::new(),
            new_count: 0,
            changed_count: 0,
            deleted_count: 0,
        };
        assert(r@.entries =~= Seq::empty());
        r
    }
}

/// Compares two sides.
pub fn compare_files(local: &FileSizes, remote: &FileSizes) -> (r: DiffResult)
    ensures
        compares(local@, remote@, r@),
{
    proof {
        lemma_status_names();
    }
    let mut d: DiffResult = DiffResult::none();
    let mut i: usize = 0;
    while i < local.len()
        invariant
            i <= local@.len(),
            collected(d@, local_entries(local@.take(i as int), remote@)),
            d.new_count <= i,
            d.changed_count <= i,
            d.deleted_count == 0,
            "new"@ != "changed"@,
            "new"@ != "deleted"@,
            "changed"@ != "deleted"@,
        decreases local@.len() - i,
    {
        let ghost all = local_entries(local@.take(i as int), remote@);
        assert(local@.take(i + 1).drop_last() =~= local@.take(i as int));
        assert(local@.take(i + 1).last() == local@[i as int]);
        let path: &str = local.file(i).path.as_str();
        let size: u64 = local.file(i).size;
        match remote.get(path) {
            None => {
                let e: DiffEntry = DiffEntry {
                    path: path.to_owned(),
                    status: "new".to_owned(),
                    local_size: Some(size),
                    remote_size: None,
                };
                proof {
                    lemma_status_push(all, e@, "new"@);
                    lemma_status_push(all, e@, "changed"@);
                    lemma_status_push(all, e@, "deleted"@);
                }
                insert_entry(&mut d.entries, e);
                d.new_count = d.new_count + 1;
            },
            Some(n) => if n != size {
                let e: DiffEntry = DiffEntry {
                    path: path.to_owned(),
                    status: "changed".to_owned(),
                    local_size: Some(size),
                    remote_size: Some(n),
                };
                proof {
                    lemma_status_push(all, e@, "new"@);
                    lemma_status_push(all, e@, "changed"@);
                    lemma_status_push(all, e@, "deleted"@);
                }
                insert_entry(&mut d.entries, e);
                d.changed_count = d.changed_count + 1;
            },
        }
        i = i + 1;
    }
    assert(local@.take(i as int) =~= local@);
    let ghost first = local_entries(local@, remote@);
    let mut j: usize = 0;
    assert(first + remote_entries(remote@.take(0), local@) =~= first);
    while j < remote.len()
        invariant
            j <= remote@.len(),
            collected(d@, first + remote_entries(remote@.take(j as int), local@)),
            d.deleted_count <= j,
            "new"@ != "deleted"@,
            "changed"@ != "deleted"@,
        decreases remote@.len() - j,
    {
        let ghost done = remote_entries(remote@.take(j as int), local@);
        assert(remote@.take(j + 1).drop_last() =~= remote@.take(j as int));
        assert(remote@.take(j + 1).last() == remote@[j as int]);
        let path: &str = remote.file(j).path.as_str();
        if local.get(path).is_none() {
            let e: DiffEntry = DiffEntry {
                path: path.to_owned(),
                status: "deleted".to_owned(),
                local_size: None,
                remote_size: Some(remote.file(j).size),
            };
            proof {
                assert((first + done).push(e@) =~= first + done.push(e@));
                lemma_status_push(first + done, e@, "new"@);
                lemma_status_push(first + done, e@, "changed"@);
                lemma_status_push(first + done, e@, "deleted"@);
            }
            insert_entry(&mut d.entries, e);
            d.deleted_count = d.deleted_count + 1;
        }
        j = j + 1;
    }
    assert(remote@.take(j as int) =~= remote@);
    d
}

} // verus!
