//! What holds of syncing and comparing as a whole: a sync makes the two sides
//! equal, a second one finds nothing to do, and a comparison agrees with both.

use vstd::prelude::*;

use crate::device;
use crate::error::ErrorView;
use crate::files;
use crate::files::FileView;
use crate::remote;
use crate::remote::LocalSide;
use crate::remote::Scope;
use crate::replies::StatView;
use crate::session::SessionView;
use crate::sync;
use crate::sync::ActionView;
use crate::sync::DiffView;
use crate::sync::EntryView;
use crate::sync::NeedView;
use crate::sync::StatsView;
use crate::text_laws;

verus! {

// ---------------------------------------------------------------------------
// Carrying out the actions of a sync
// ---------------------------------------------------------------------------

/// The remote side after an action.
pub open spec fn acted(m: Map<Seq<char>, u64>, a: ActionView) -> Map<Seq<char>, u64> {
    if a.action == "upload"@ {
        m.insert(a.path, a.size)
    } else if a.action == "delete"@ {
        m.remove(a.path)
    } else {
        m
    }
}

/// The remote side after several actions.
pub open spec fn carried_out(m: Map<Seq<char>, u64>, actions: Seq<ActionView>) -> Map<
    Seq<char>,
    u64,
>
    decreases actions.len(),
{
    if actions.len() == 0 {
        m
    } else {
        acted(carried_out(m, actions.drop_last()), actions.last())
    }
}

pub proof fn lemma_action_names()
    ensures
        "upload"@ != "delete"@,
{
    reveal_strlit("upload");
    reveal_strlit("delete");
    assert("upload"@[0] == 'u');
    assert("delete"@[0] == 'd');
}

proof fn lemma_carried_out_concat(
    m: Map<Seq<char>, u64>,
    a: Seq<ActionView>,
    b: Seq<ActionView>,
)
    ensures
        carried_out(m, a + b) == carried_out(carried_out(m, a), b),
    decreases b.len(),
{
    if b.len() == 0 {
        assert(a + b =~= a);
    } else {
        assert((a + b).drop_last() =~= a + b.drop_last());
        assert((a + b).last() == b.last());
        lemma_carried_out_concat(m, a, b.drop_last());
    }
}

proof fn lemma_prefix_has_no_twins(s: Seq<FileView>)
    requires
        files::no_twins(s),
        s.len() > 0,
    ensures
        files::no_twins(s.drop_last()),
{
    assert forall|i: int, j: int| 0 <= i < j < s.drop_last().len() implies (
    #[trigger] s.drop_last()[i]).path != (#[trigger] s.drop_last()[j]).path by {
        assert(s.drop_last()[i] == s[i] && s.drop_last()[j] == s[j]);
    }
}

proof fn lemma_last_is_new(s: Seq<FileView>)
    requires
        files::no_twins(s),
        s.len() > 0,
    ensures
        files::size_in(s.drop_last(), s.last().path) is None,
        forall|p: Seq<char>| #[trigger]
            files::size_in(s, p) == (if p == s.last().path {
                Some(s.last().size)
            } else {
                files::size_in(s.drop_last(), p)
            }),
{
    files::lemma_file_index(s.drop_last(), s.last().path);
    assert forall|p: Seq<char>| #[trigger]
        files::size_in(s, p) == (if p == s.last().path {
            Some(s.last().size)
        } else {
            files::size_in(s.drop_last(), p)
        }) by {
        files::lemma_file_index(s.drop_last(), p);
    }
}

/// The size that a path has in a map.
pub open spec fn size_at(m: Map<Seq<char>, u64>, p: Seq<char>) -> Option<u64> {
    if m.dom().contains(p) {
        Some(m[p])
    } else {
        None
    }
}

proof fn lemma_size_at(s: Seq<FileView>, p: Seq<char>)
    ensures
        size_at(files::sizes(s), p) == files::size_in(s, p),
{
    assert(files::sizes(s).dom().contains(p) == (files::size_in(s, p) is Some));
}

proof fn lemma_same_sizes(m: Map<Seq<char>, u64>, n: Map<Seq<char>, u64>)
    requires
        forall|p: Seq<char>| #[trigger] size_at(m, p) == size_at(n, p),
    ensures
        m == n,
{
    assert forall|p: Seq<char>| #[trigger] m.dom().contains(p) == n.dom().contains(p) by {
        assert(size_at(m, p) == size_at(n, p));
    }
    assert(m.dom() =~= n.dom());
    assert forall|p: Seq<char>| m.dom().contains(p) implies #[trigger] m[p] == n[p] by {
        assert(size_at(m, p) == size_at(n, p));
    }
    assert(m =~= n);
}

proof fn lemma_uploads(local: Seq<FileView>, remote: Seq<FileView>)
    requires
        files::no_twins(local),
    ensures
        forall|p: Seq<char>| #[trigger]
            size_at(carried_out(files::sizes(remote), sync::uploads(local, remote)), p) == (
            match files::size_in(local, p) {
                Some(n) => Some(n),
                None => files::size_in(remote, p),
            }),
    decreases local.len(),
{
    let start = files::sizes(remote);
    lemma_action_names();
    if local.len() > 0 {
        let f = local.last();
        let before = sync::uploads(local.drop_last(), remote);
        lemma_prefix_has_no_twins(local);
        lemma_uploads(local.drop_last(), remote);
        lemma_last_is_new(local);
        assert(before.push(sync::upload_of(f)).drop_last() =~= before);
        assert forall|p: Seq<char>| #[trigger]
            size_at(carried_out(start, sync::uploads(local, remote)), p) == (
            match files::size_in(local, p) {
                Some(n) => Some(n),
                None => files::size_in(remote, p),
            }) by {
            assert(size_at(carried_out(start, before), p) == (match files::size_in(
                local.drop_last(),
                p,
            ) {
                Some(n) => Some(n),
                None => files::size_in(remote, p),
            }));
        }
    }
}

proof fn lemma_deletions(
    m: Map<Seq<char>, u64>,
    remote: Seq<FileView>,
    local: Seq<FileView>,
)
    requires
        files::no_twins(remote),
    ensures
        forall|p: Seq<char>| #[trigger]
            size_at(carried_out(m, sync::deletions(remote, local)), p) == (if files::size_in(
                remote,
                p,
            ) is Some && files::size_in(local, p) is None {
                None
            } else {
                size_at(m, p)
            }),
    decreases remote.len(),
{
    lemma_action_names();
    if remote.len() > 0 {
        let f = remote.last();
        let before = sync::deletions(remote.drop_last(), local);
        lemma_prefix_has_no_twins(remote);
        lemma_deletions(m, remote.drop_last(), local);
        lemma_last_is_new(remote);
        assert(before.push(sync::deletion_of(f)).drop_last() =~= before);
        assert forall|p: Seq<char>| #[trigger]
            size_at(carried_out(m, sync::deletions(remote, local)), p) == (if files::size_in(
                remote,
                p,
            ) is Some && files::size_in(local, p) is None {
                None
            } else {
                size_at(m, p)
            }) by {
            assert(size_at(carried_out(m, before), p) == (if files::size_in(
                remote.drop_last(),
                p,
            ) is Some && files::size_in(local, p) is None {
                None
            } else {
                size_at(m, p)
            }));
        }
    }
}

/// A sync makes the remote side equal to the local one: carrying out its actions
/// leaves exactly the local files there, with their sizes.
pub proof fn law_sync_makes_the_sides_equal(local: Seq<FileView>, remote: Seq<FileView>)
    requires
        files::no_twins(local),
        files::no_twins(remote),
    ensures
        carried_out(files::sizes(remote), sync::plan(local, remote).actions) == files::sizes(local),
{
    let ups = sync::uploads(local, remote);
    let dels = sync::deletions(remote, local);
    let mid = carried_out(files::sizes(remote), ups);
    let end = carried_out(mid, dels);
    lemma_carried_out_concat(files::sizes(remote), ups, dels);
    lemma_uploads(local, remote);
    lemma_deletions(mid, remote, local);
    assert forall|p: Seq<char>| #[trigger] size_at(end, p) == size_at(files::sizes(local), p) by {
        lemma_size_at(local, p);
        assert(size_at(mid, p) == (match files::size_in(local, p) {
            Some(n) => Some(n),
            None => files::size_in(remote, p),
        }));
    }
    lemma_same_sizes(end, files::sizes(local));
}

proof fn lemma_nothing_to_upload(local: Seq<FileView>, remote: Seq<FileView>)
    requires
        forall|i: int|
            0 <= i < local.len() ==> files::size_in(remote, (#[trigger] local[i]).path) == Some(
                local[i].size,
            ),
    ensures
        sync::uploads(local, remote).len() == 0,
        sync::local_entries(local, remote).len() == 0,
    decreases local.len(),
{
    if local.len() > 0 {
        assert(local.last() == local[local.len() - 1]);
        assert forall|i: int| 0 <= i < local.drop_last().len() implies files::size_in(
            remote,
            (#[trigger] local.drop_last()[i]).path,
        ) == Some(local.drop_last()[i].size) by {
            assert(local.drop_last()[i] == local[i]);
        }
        lemma_nothing_to_upload(local.drop_last(), remote);
    }
}

proof fn lemma_nothing_to_delete(remote: Seq<FileView>, local: Seq<FileView>)
    requires
        forall|i: int|
            0 <= i < remote.len() ==> files::size_in(local, (#[trigger] remote[i]).path) is Some,
    ensures
        sync::deletions(remote, local).len() == 0,
        sync::remote_entries(remote, local).len() == 0,
    decreases remote.len(),
{
    if remote.len() > 0 {
        assert(remote.last() == remote[remote.len() - 1]);
        assert forall|i: int| 0 <= i < remote.drop_last().len() implies files::size_in(
            local,
            (#[trigger] remote.drop_last()[i]).path,
        ) is Some by {
            assert(remote.drop_last()[i] == remote[i]);
        }
        lemma_nothing_to_delete(remote.drop_last(), local);
    }
}

/// Where both sides have the same files with the same sizes, a sync does nothing.
pub proof fn law_equal_sides_need_no_sync(local: Seq<FileView>, remote: Seq<FileView>)
    requires
        files::no_twins(local),
        files::no_twins(remote),
        files::sizes(local) == files::sizes(remote),
    ensures
        sync::plan(local, remote).actions.len() == 0,
{
    assert forall|p: Seq<char>| #[trigger] files::size_in(local, p) == files::size_in(
        remote,
        p,
    ) by {
        lemma_size_at(local, p);
        lemma_size_at(remote, p);
    }
    assert forall|i: int| 0 <= i < local.len() implies files::size_in(
        remote,
        (#[trigger] local[i]).path,
    ) == Some(local[i].size) by {
        files::lemma_file_found(local, i);
    }
    assert forall|i: int| 0 <= i < remote.len() implies files::size_in(
        local,
        (#[trigger] remote[i]).path,
    ) is Some by {
        files::lemma_file_found(remote, i);
    }
    lemma_nothing_to_upload(local, remote);
    lemma_nothing_to_delete(remote, local);
}

/// After a sync a second one does nothing, if nothing has changed on either side.
pub proof fn law_second_sync_does_nothing(
    local: Seq<FileView>,
    remote: Seq<FileView>,
    later: Seq<FileView>,
)
    requires
        files::no_twins(local),
        files::no_twins(remote),
        files::no_twins(later),
        files::sizes(later) == carried_out(
            files::sizes(remote),
            sync::plan(local, remote).actions,
        ),
    ensures
        sync::plan(local, later).actions.len() == 0,
{
    law_sync_makes_the_sides_equal(local, remote);
    law_equal_sides_need_no_sync(local, later);
}

// ---------------------------------------------------------------------------
// Comparing
// ---------------------------------------------------------------------------

proof fn lemma_status_concat(a: Seq<EntryView>, b: Seq<EntryView>, status: Seq<char>)
    ensures
        sync::with_status(a + b, status) == sync::with_status(a, status) + sync::with_status(
            b,
            status,
        ),
    decreases b.len(),
{
    if b.len() == 0 {
        assert(a + b =~= a);
    } else {
        assert((a + b).drop_last() =~= a + b.drop_last());
        assert((a + b).last() == b.last());
        lemma_status_concat(a, b.drop_last(), status);
    }
}

proof fn lemma_local_status(local: Seq<FileView>, remote: Seq<FileView>)
    ensures
        ({
            let s = sync::local_entries(local, remote);
            &&& sync::with_status(s, "new"@) + sync::with_status(s, "changed"@) == s.len()
            &&& sync::with_status(s, "deleted"@) == 0
            &&& s.len() == sync::uploads(local, remote).len()
        }),
    decreases local.len(),
{
    sync::lemma_status_names();
    if local.len() > 0 {
        lemma_local_status(local.drop_last(), remote);
        let before = sync::local_entries(local.drop_last(), remote);
        assert(forall|e: EntryView| (#[trigger] before.push(e)).drop_last() =~= before);
    }
}

proof fn lemma_remote_status(remote: Seq<FileView>, local: Seq<FileView>)
    ensures
        ({
            let s = sync::remote_entries(remote, local);
            &&& sync::with_status(s, "new"@) == 0
            &&& sync::with_status(s, "changed"@) == 0
            &&& sync::with_status(s, "deleted"@) == s.len()
            &&& s.len() == sync::deletions(remote, local).len()
        }),
    decreases remote.len(),
{
    sync::lemma_status_names();
    if remote.len() > 0 {
        lemma_remote_status(remote.drop_last(), local);
        let before = sync::remote_entries(remote.drop_last(), local);
        assert(forall|e: EntryView| (#[trigger] before.push(e)).drop_last() =~= before);
    }
}

/// A comparison announces what a sync does: as many new and changed files as there
/// are uploads, as many deleted ones as there are deletions, and nothing else.
pub proof fn law_comparison_announces_the_sync(
    local: Seq<FileView>,
    remote: Seq<FileView>,
    d: DiffView,
)
    requires
        sync::compares(local, remote, d),
    ensures
        d.new_count + d.changed_count == sync::plan(local, remote).uploaded,
        d.deleted_count == sync::plan(local, remote).deleted,
        d.entries.len() == sync::plan(local, remote).actions.len(),
        d.entries.len() == d.new_count + d.changed_count + d.deleted_count,
{
    let a = sync::local_entries(local, remote);
    let b = sync::remote_entries(remote, local);
    lemma_local_status(local, remote);
    lemma_remote_status(remote, local);
    lemma_status_concat(a, b, "new"@);
    lemma_status_concat(a, b, "changed"@);
    lemma_status_concat(a, b, "deleted"@);
    d.entries.to_multiset_ensures();
    sync::all_entries(local, remote).to_multiset_ensures();
}

/// Whether all entries have different paths.
pub open spec fn distinct_paths(s: Seq<EntryView>) -> bool {
    forall|i: int, j: int|
        0 <= i < s.len() && 0 <= j < s.len() && i != j ==> (#[trigger] s[i]).path != (
        #[trigger] s[j]).path
}

proof fn lemma_sorted_is_unique(a: Seq<EntryView>, b: Seq<EntryView>)
    requires
        sync::in_order(a),
        sync::in_order(b),
        distinct_paths(a),
        a.to_multiset() == b.to_multiset(),
    ensures
        a == b,
    decreases a.len(),
{
    a.to_multiset_ensures();
    b.to_multiset_ensures();
    assert(a.len() == b.len());
    if a.len() == 0 {
        assert(a =~= b);
    } else {
        assert(a.contains(a[0]) && a.to_multiset().count(a[0]) > 0);
        assert(b.to_multiset().count(a[0]) > 0 && b.contains(a[0]));
        assert(b.contains(b[0]) && b.to_multiset().count(b[0]) > 0);
        assert(a.to_multiset().count(b[0]) > 0 && a.contains(b[0]));
        let k = choose|k: int| 0 <= k < b.len() && b[k] == a[0];
        let l = choose|l: int| 0 <= l < a.len() && a[l] == b[0];
        if l != 0 {
            assert(!files::precedes(a[l].path, a[0].path));
            assert(k != 0);
            assert(!files::precedes(b[k].path, b[0].path));
            files::lemma_precedes_total(a[0].path, b[0].path);
            assert(a[0].path != a[l].path);
        }
        assert(a[0] == b[0]);
        let x = a.skip(1);
        let y = b.skip(1);
        assert(x =~= a.remove(0));
        assert(y =~= b.remove(0));
        assert(x.to_multiset() == y.to_multiset());
        assert forall|i: int, j: int| 0 <= i < j < x.len() implies !files::precedes(
            (#[trigger] x[j]).path,
            (#[trigger] x[i]).path,
        ) by {
            assert(x[i] == a[i + 1] && x[j] == a[j + 1]);
        }
        assert forall|i: int, j: int| 0 <= i < j < y.len() implies !files::precedes(
            (#[trigger] y[j]).path,
            (#[trigger] y[i]).path,
        ) by {
            assert(y[i] == b[i + 1] && y[j] == b[j + 1]);
        }
        assert forall|i: int, j: int| 0 <= i < x.len() && 0 <= j < x.len() && i != j implies (
        #[trigger] x[i]).path != (#[trigger] x[j]).path by {
            assert(x[i] == a[i + 1] && x[j] == a[j + 1]);
        }
        lemma_sorted_is_unique(x, y);
        assert(a =~= seq![a[0]] + x);
        assert(b =~= seq![b[0]] + y);
    }
}

proof fn lemma_local_paths(local: Seq<FileView>, remote: Seq<FileView>)
    requires
        files::no_twins(local),
    ensures
        distinct_paths(sync::local_entries(local, remote)),
        forall|i: int|
            0 <= i < sync::local_entries(local, remote).len() ==> files::size_in(
                local,
                (#[trigger] sync::local_entries(local, remote)[i]).path,
            ) is Some,
    decreases local.len(),
{
    if local.len() > 0 {
        let before = sync::local_entries(local.drop_last(), remote);
        let all = sync::local_entries(local, remote);
        lemma_prefix_has_no_twins(local);
        lemma_local_paths(local.drop_last(), remote);
        lemma_last_is_new(local);
        assert forall|i: int| 0 <= i < all.len() implies files::size_in(
            local,
            (#[trigger] all[i]).path,
        ) is Some by {
            if i < before.len() {
                assert(all[i] == before[i]);
            }
        }
        assert forall|i: int, j: int| 0 <= i < all.len() && 0 <= j < all.len() && i != j implies (
        #[trigger] all[i]).path != (#[trigger] all[j]).path by {
            if i < before.len() {
                assert(all[i] == before[i]);
            }
            if j < before.len() {
                assert(all[j] == before[j]);
            }
        }
    }
}

proof fn lemma_remote_paths(remote: Seq<FileView>, local: Seq<FileView>)
    requires
        files::no_twins(remote),
    ensures
        distinct_paths(sync::remote_entries(remote, local)),
        forall|i: int|
            0 <= i < sync::remote_entries(remote, local).len() ==> files::size_in(
                remote,
                (#[trigger] sync::remote_entries(remote, local)[i]).path,
            ) is Some && files::size_in(local, sync::remote_entries(remote, local)[i].path) is None,
    decreases remote.len(),
{
    if remote.len() > 0 {
        let before = sync::remote_entries(remote.drop_last(), local);
        let all = sync::remote_entries(remote, local);
        lemma_prefix_has_no_twins(remote);
        lemma_remote_paths(remote.drop_last(), local);
        lemma_last_is_new(remote);
        assert forall|i: int| 0 <= i < all.len() implies files::size_in(
            remote,
            (#[trigger] all[i]).path,
        ) is Some && files::size_in(local, all[i].path) is None by {
            if i < before.len() {
                assert(all[i] == before[i]);
            }
        }
        assert forall|i: int, j: int| 0 <= i < all.len() && 0 <= j < all.len() && i != j implies (
        #[trigger] all[i]).path != (#[trigger] all[j]).path by {
            if i < before.len() {
                assert(all[i] == before[i]);
            }
            if j < before.len() {
                assert(all[j] == before[j]);
            }
        }
    }
}

/// A comparison has one result only, and no path occurs in it twice.
pub proof fn law_comparison_is_determined(
    local: Seq<FileView>,
    remote: Seq<FileView>,
    d: DiffView,
    e: DiffView,
)
    requires
        files::no_twins(local),
        files::no_twins(remote),
        sync::compares(local, remote, d),
        sync::compares(local, remote, e),
    ensures
        d == e,
        distinct_paths(d.entries),
{
    let a = sync::local_entries(local, remote);
    let b = sync::remote_entries(remote, local);
    let all = sync::all_entries(local, remote);
    lemma_local_paths(local, remote);
    lemma_remote_paths(remote, local);
    assert forall|i: int, j: int| 0 <= i < all.len() && 0 <= j < all.len() && i != j implies (
    #[trigger] all[i]).path != (#[trigger] all[j]).path by {
        if i < a.len() {
            assert(all[i] == a[i]);
        } else {
            assert(all[i] == b[i - a.len()]);
        }
        if j < a.len() {
            assert(all[j] == a[j]);
        } else {
            assert(all[j] == b[j - a.len()]);
        }
    }
    lemma_distinct_by_multiset(all, d.entries);
    lemma_sorted_is_unique(d.entries, e.entries);
}

/// Having different paths depends on the entries alone, not on their order.
proof fn lemma_distinct_by_multiset(a: Seq<EntryView>, b: Seq<EntryView>)
    requires
        distinct_paths(a),
        a.to_multiset() == b.to_multiset(),
    ensures
        distinct_paths(b),
{
    a.to_multiset_ensures();
    b.to_multiset_ensures();
    assert(a.no_duplicates()) by {
        assert forall|i: int, j: int| 0 <= i < a.len() && 0 <= j < a.len() && i != j implies a[i]
            != a[j] by {
            assert(a[i].path != a[j].path);
        }
    }
    a.lemma_multiset_has_no_duplicates();
    b.lemma_multiset_has_no_duplicates_conv();
    assert forall|i: int, j: int| 0 <= i < b.len() && 0 <= j < b.len() && i != j implies (
    #[trigger] b[i]).path != (#[trigger] b[j]).path by {
        assert(b.contains(b[i]) && b.contains(b[j]));
        assert(a.to_multiset().count(b[i]) > 0 && a.contains(b[i]));
        assert(a.to_multiset().count(b[j]) > 0 && a.contains(b[j]));
        let k = choose|k: int| 0 <= k < a.len() && a[k] == b[i];
        let l = choose|l: int| 0 <= l < a.len() && a[l] == b[j];
        assert(b[i] != b[j]);
        assert(a[k].path != a[l].path);
    }
}

/// Whether a side has a file with a path and a size.
pub open spec fn has_file(side: Seq<FileView>, path: Seq<char>, size: u64) -> bool {
    side.contains(FileView { path, size })
}

/// Whether a side has a file with a path.
pub open spec fn has_path(side: Seq<FileView>, path: Seq<char>) -> bool {
    exists|size: u64| has_file(side, path, size)
}

/// How many entries have a status.
pub open spec fn counted(s: Seq<EntryView>, status: Seq<char>) -> nat {
    s.filter(|e: EntryView| e.status == status).len()
}

proof fn lemma_size_of(side: Seq<FileView>, path: Seq<char>)
    requires
        files::no_twins(side),
    ensures
        files::size_in(side, path) is Some <==> has_path(side, path),
        forall|size: u64|
            files::size_in(side, path) == Some(size) <==> #[trigger] has_file(side, path, size),
{
    files::lemma_file_index(side, path);
    assert forall|size: u64|
        files::size_in(side, path) == Some(size) <==> #[trigger] has_file(side, path, size) by {
        if has_file(side, path, size) {
            let f = FileView { path, size };
            let i = choose|i: int| 0 <= i < side.len() && side[i] == f;
            files::lemma_file_found(side, i);
        }
        if files::size_in(side, path) == Some(size) {
            let i = files::file_index(side, path)->0;
            assert(side[i] == FileView { path, size });
        }
    }
    if files::size_in(side, path) is Some {
        assert(has_file(side, path, files::size_in(side, path)->0));
    }
}

/// Whether an entry is what a comparison says of a local file.
spec fn says_of_local(f: FileView, remote: Seq<FileView>, e: EntryView) -> bool {
    e.path == f.path && e.local_size == Some(f.size) && match e.remote_size {
        None => e.status == "new"@ && !has_path(remote, f.path),
        Some(n) => e.status == "changed"@ && has_file(remote, f.path, n) && n != f.size,
    }
}

proof fn lemma_local_exact(local: Seq<FileView>, remote: Seq<FileView>, e: EntryView)
    requires
        files::no_twins(remote),
    ensures
        sync::local_entries(local, remote).contains(e) <==> exists|i: int|
            0 <= i < local.len() && says_of_local(#[trigger] local[i], remote, e),
    decreases local.len(),
{
    if local.len() > 0 {
        let f = local.last();
        let rest = local.drop_last();
        let before = sync::local_entries(rest, remote);
        let all = sync::local_entries(local, remote);
        lemma_local_exact(rest, remote, e);
        lemma_size_of(remote, f.path);
        if all.contains(e) {
            let k = choose|k: int| 0 <= k < all.len() && all[k] == e;
            if k < before.len() {
                assert(before[k] == e);
                let i = choose|i: int|
                    0 <= i < rest.len() && says_of_local(#[trigger] rest[i], remote, e);
                assert(says_of_local(local[i], remote, e));
            } else {
                assert(says_of_local(local[local.len() - 1], remote, e));
            }
        }
        if exists|i: int| 0 <= i < local.len() && says_of_local(#[trigger] local[i], remote, e) {
            let i = choose|i: int|
                0 <= i < local.len() && says_of_local(#[trigger] local[i], remote, e);
            if i < rest.len() {
                assert(says_of_local(rest[i], remote, e));
                let k = choose|k: int| 0 <= k < before.len() && before[k] == e;
                assert(all[k] == e);
            } else {
                match e.remote_size {
                    Some(n) => {
                        assert(has_file(remote, f.path, n));
                        assert(all.last() == e);
                    },
                    None => {
                        assert(all.last() == e);
                    },
                }
                assert(all[all.len() - 1] == e);
            }
        }
    }
}

/// Whether an entry is what a comparison says of a remote file.
spec fn says_of_remote(f: FileView, local: Seq<FileView>, e: EntryView) -> bool {
    &&& e.path == f.path
    &&& e.local_size is None
    &&& e.remote_size == Some(f.size)
    &&& e.status == "deleted"@
    &&& !has_path(local, f.path)
}

proof fn lemma_remote_exact(remote: Seq<FileView>, local: Seq<FileView>, e: EntryView)
    requires
        files::no_twins(local),
    ensures
        sync::remote_entries(remote, local).contains(e) <==> exists|i: int|
            0 <= i < remote.len() && says_of_remote(#[trigger] remote[i], local, e),
    decreases remote.len(),
{
    if remote.len() > 0 {
        let f = remote.last();
        let rest = remote.drop_last();
        let before = sync::remote_entries(rest, local);
        let all = sync::remote_entries(remote, local);
        lemma_remote_exact(rest, local, e);
        lemma_size_of(local, f.path);
        if all.contains(e) {
            let k = choose|k: int| 0 <= k < all.len() && all[k] == e;
            if k < before.len() {
                assert(before[k] == e);
                let i = choose|i: int|
                    0 <= i < rest.len() && says_of_remote(#[trigger] rest[i], local, e);
                assert(says_of_remote(remote[i], local, e));
            } else {
                assert(says_of_remote(remote[remote.len() - 1], local, e));
            }
        }
        if exists|i: int| 0 <= i < remote.len() && says_of_remote(#[trigger] remote[i], local, e) {
            let i = choose|i: int|
                0 <= i < remote.len() && says_of_remote(#[trigger] remote[i], local, e);
            if i < rest.len() {
                assert(says_of_remote(rest[i], local, e));
                let k = choose|k: int| 0 <= k < before.len() && before[k] == e;
                assert(all[k] == e);
            } else {
                assert(all.last() == e);
                assert(all[all.len() - 1] == e);
            }
        }
    }
}

/// The entries that a comparison of two sides owes, whatever their order: `new` for a
/// local file that is not on the remote side, with its local size; `changed` for one
/// that has another size there, with both sizes; `deleted` for a remote file that is
/// not on the local side, with its remote size.
pub open spec fn is_owed(local: Seq<FileView>, remote: Seq<FileView>, e: EntryView) -> bool {
    match (e.local_size, e.remote_size) {
        (Some(n), None) => e.status == "new"@ && has_file(local, e.path, n) && !has_path(
            remote,
            e.path,
        ),
        (Some(n), Some(m)) => e.status == "changed"@ && has_file(local, e.path, n) && has_file(
            remote,
            e.path,
            m,
        ) && n != m,
        (None, Some(m)) => e.status == "deleted"@ && has_file(remote, e.path, m) && !has_path(
            local,
            e.path,
        ),
        (None, None) => false,
    }
}

proof fn lemma_all_exact(local: Seq<FileView>, remote: Seq<FileView>, e: EntryView)
    requires
        files::no_twins(local),
        files::no_twins(remote),
    ensures
        sync::all_entries(local, remote).contains(e) <==> is_owed(local, remote, e),
{
    let a = sync::local_entries(local, remote);
    let b = sync::remote_entries(remote, local);
    let all = sync::all_entries(local, remote);
    lemma_local_exact(local, remote, e);
    lemma_remote_exact(remote, local, e);
    if all.contains(e) {
        let k = choose|k: int| 0 <= k < all.len() && all[k] == e;
        if k < a.len() {
            assert(a[k] == e);
            let i = choose|i: int|
                0 <= i < local.len() && says_of_local(#[trigger] local[i], remote, e);
            assert(local[i] == FileView { path: e.path, size: e.local_size->0 });
        } else {
            assert(b[k - a.len()] == e);
            let i = choose|i: int|
                0 <= i < remote.len() && says_of_remote(#[trigger] remote[i], local, e);
            assert(remote[i] == FileView { path: e.path, size: e.remote_size->0 });
        }
    }
    if is_owed(local, remote, e) {
        if e.local_size is Some {
            let f = FileView { path: e.path, size: e.local_size->0 };
            let i = choose|i: int| 0 <= i < local.len() && local[i] == f;
            assert(says_of_local(local[i], remote, e));
            let k = choose|k: int| 0 <= k < a.len() && a[k] == e;
            assert(all[k] == e);
        } else {
            let f = FileView { path: e.path, size: e.remote_size->0 };
            let i = choose|i: int| 0 <= i < remote.len() && remote[i] == f;
            assert(says_of_remote(remote[i], local, e));
            let k = choose|k: int| 0 <= k < b.len() && b[k] == e;
            assert(all[k + a.len()] == e);
        }
    }
}

proof fn lemma_with_status(s: Seq<EntryView>, status: Seq<char>)
    ensures
        sync::with_status(s, status) == counted(s, status),
    decreases s.len(),
{
    reveal(Seq::filter);
    if s.len() > 0 {
        lemma_with_status(s.drop_last(), status);
    }
}

/// A comparison is exact: it has an entry for each difference and no other, each
/// difference once, in the order of the paths; and its counts are the numbers of new,
/// changed and deleted files.
pub proof fn law_comparison_is_exact(local: Seq<FileView>, remote: Seq<FileView>, d: DiffView)
    requires
        files::no_twins(local),
        files::no_twins(remote),
        sync::compares(local, remote, d),
    ensures
        forall|e: EntryView| #[trigger] d.entries.contains(e) <==> is_owed(local, remote, e),
        distinct_paths(d.entries),
        d.new_count == counted(d.entries, "new"@),
        d.changed_count == counted(d.entries, "changed"@),
        d.deleted_count == counted(d.entries, "deleted"@),
{
    let all = sync::all_entries(local, remote);
    law_comparison_is_determined(local, remote, d, d);
    all.to_multiset_ensures();
    d.entries.to_multiset_ensures();
    assert forall|e: EntryView| #[trigger] d.entries.contains(e) <==> is_owed(
        local,
        remote,
        e,
    ) by {
        lemma_all_exact(local, remote, e);
        assert(all.contains(e) <==> all.to_multiset().count(e) > 0);
        assert(d.entries.contains(e) <==> d.entries.to_multiset().count(e) > 0);
    }
    lemma_counted_by_multiset(all, d.entries, "new"@);
    lemma_counted_by_multiset(all, d.entries, "changed"@);
    lemma_counted_by_multiset(all, d.entries, "deleted"@);
    lemma_with_status(all, "new"@);
    lemma_with_status(all, "changed"@);
    lemma_with_status(all, "deleted"@);
}

/// How many entries have a status depends on the entries alone, not on their order.
proof fn lemma_counted_by_multiset(a: Seq<EntryView>, b: Seq<EntryView>, status: Seq<char>)
    requires
        a.to_multiset() == b.to_multiset(),
    ensures
        counted(a, status) == counted(b, status),
{
    let p = |e: EntryView| e.status == status;
    lemma_filter_multiset(a, p);
    lemma_filter_multiset(b, p);
    a.filter(p).to_multiset_ensures();
    b.filter(p).to_multiset_ensures();
}

proof fn lemma_filter_multiset(s: Seq<EntryView>, p: spec_fn(EntryView) -> bool)
    ensures
        s.filter(p).to_multiset() == s.to_multiset().filter(p),
    decreases s.len(),
{
    reveal(Seq::filter);
    if s.len() == 0 {
        s.to_multiset_ensures();
        s.filter(p).to_multiset_ensures();
        assert(s.filter(p).to_multiset() =~= s.to_multiset().filter(p));
    } else {
        let before = s.drop_last();
        let x = s.last();
        lemma_filter_multiset(before, p);
        assert(before.push(x) =~= s);
        before.to_multiset_ensures();
        before.filter(p).to_multiset_ensures();
        assert(s.to_multiset() =~= before.to_multiset().insert(x));
        assert(s.filter(p).to_multiset() =~= s.to_multiset().filter(p));
    }
}

// ---------------------------------------------------------------------------
// What is in a plan
// ---------------------------------------------------------------------------

/// The actions that a sync owes, whatever their order: the upload of a local file that
/// the remote side does not have with this size, and the deletion of a remote file
/// whose path the local side does not have.
pub open spec fn is_due(local: Seq<FileView>, remote: Seq<FileView>, a: ActionView) -> bool {
    ||| a.action == "upload"@ && has_file(local, a.path, a.size) && !has_file(
        remote,
        a.path,
        a.size,
    )
    ||| a.action == "delete"@ && has_file(remote, a.path, a.size) && !has_path(local, a.path)
}

proof fn lemma_uploads_exact(local: Seq<FileView>, remote: Seq<FileView>, a: ActionView)
    requires
        files::no_twins(remote),
    ensures
        sync::uploads(local, remote).contains(a) <==> (a.action == "upload"@ && has_file(
            local,
            a.path,
            a.size,
        ) && !has_file(remote, a.path, a.size)),
    decreases local.len(),
{
    let all = sync::uploads(local, remote);
    if local.len() > 0 {
        let f = local.last();
        let rest = local.drop_last();
        let before = sync::uploads(rest, remote);
        let g = FileView { path: a.path, size: a.size };
        lemma_uploads_exact(rest, remote, a);
        lemma_size_of(remote, f.path);
        assert(has_file(remote, f.path, f.size) <==> files::size_in(remote, f.path) == Some(
            f.size,
        ));
        if all.contains(a) {
            let k = choose|k: int| 0 <= k < all.len() && all[k] == a;
            if k < before.len() {
                assert(before[k] == a);
                let i = choose|i: int| 0 <= i < rest.len() && rest[i] == g;
                assert(local[i] == g);
            } else {
                assert(local[local.len() - 1] == g);
            }
        }
        if a.action == "upload"@ && has_file(local, a.path, a.size) && !has_file(
            remote,
            a.path,
            a.size,
        ) {
            let i = choose|i: int| 0 <= i < local.len() && local[i] == g;
            if i < rest.len() {
                assert(rest[i] == g);
                let k = choose|k: int| 0 <= k < before.len() && before[k] == a;
                assert(all[k] == a);
            } else {
                assert(all[all.len() - 1] == a);
            }
        }
    } else {
        assert(!has_file(local, a.path, a.size));
    }
}

proof fn lemma_deletions_exact(remote: Seq<FileView>, local: Seq<FileView>, a: ActionView)
    requires
        files::no_twins(local),
    ensures
        sync::deletions(remote, local).contains(a) <==> (a.action == "delete"@ && has_file(
            remote,
            a.path,
            a.size,
        ) && !has_path(local, a.path)),
    decreases remote.len(),
{
    let all = sync::deletions(remote, local);
    if remote.len() > 0 {
        let f = remote.last();
        let rest = remote.drop_last();
        let before = sync::deletions(rest, local);
        let g = FileView { path: a.path, size: a.size };
        lemma_deletions_exact(rest, local, a);
        lemma_size_of(local, f.path);
        if all.contains(a) {
            let k = choose|k: int| 0 <= k < all.len() && all[k] == a;
            if k < before.len() {
                assert(before[k] == a);
                let i = choose|i: int| 0 <= i < rest.len() && rest[i] == g;
                assert(remote[i] == g);
            } else {
                assert(remote[remote.len() - 1] == g);
            }
        }
        if a.action == "delete"@ && has_file(remote, a.path, a.size) && !has_path(local, a.path) {
            let i = choose|i: int| 0 <= i < remote.len() && remote[i] == g;
            if i < rest.len() {
                assert(rest[i] == g);
                let k = choose|k: int| 0 <= k < before.len() && before[k] == a;
                assert(all[k] == a);
            } else {
                assert(all[all.len() - 1] == a);
            }
        }
    } else {
        assert(!has_file(remote, a.path, a.size));
    }
}

/// How many actions are of a kind.
pub open spec fn actions_of(s: Seq<ActionView>, action: Seq<char>) -> nat {
    s.filter(|a: ActionView| a.action == action).len()
}

proof fn lemma_actions_of(s: Seq<ActionView>, action: Seq<char>, other: Seq<char>)
    requires
        action != other,
        forall|i: int| 0 <= i < s.len() ==> (#[trigger] s[i]).action == action,
    ensures
        actions_of(s, action) == s.len(),
        actions_of(s, other) == 0,
    decreases s.len(),
{
    reveal(Seq::filter);
    if s.len() > 0 {
        assert(s[s.len() - 1].action == action);
        assert forall|i: int| 0 <= i < s.drop_last().len() implies (
        #[trigger] s.drop_last()[i]).action == action by {
            assert(s.drop_last()[i] == s[i]);
        }
        lemma_actions_of(s.drop_last(), action, other);
    }
}

proof fn lemma_actions_concat(a: Seq<ActionView>, b: Seq<ActionView>, action: Seq<char>)
    ensures
        actions_of(a + b, action) == actions_of(a, action) + actions_of(b, action),
    decreases b.len(),
{
    reveal(Seq::filter);
    if b.len() == 0 {
        assert(a + b =~= a);
    } else {
        assert((a + b).drop_last() =~= a + b.drop_last());
        assert((a + b).last() == b.last());
        lemma_actions_concat(a, b.drop_last(), action);
    }
}

/// A plan is exact: it has the actions that are due and no other, with the sizes of
/// the files; it counts the uploads and the deletions; nothing is downloaded.
pub proof fn law_plan_is_exact(local: Seq<FileView>, remote: Seq<FileView>)
    requires
        files::no_twins(local),
        files::no_twins(remote),
    ensures
        ({
            let p = sync::plan(local, remote);
            &&& forall|a: ActionView| #[trigger] p.actions.contains(a) <==> is_due(local, remote, a)
            &&& p.uploaded == actions_of(p.actions, "upload"@)
            &&& p.deleted == actions_of(p.actions, "delete"@)
            &&& p.downloaded == 0
        }),
{
    let p = sync::plan(local, remote);
    let ups = sync::uploads(local, remote);
    let dels = sync::deletions(remote, local);
    assert forall|a: ActionView| #[trigger] p.actions.contains(a) <==> is_due(
        local,
        remote,
        a,
    ) by {
        lemma_uploads_exact(local, remote, a);
        lemma_deletions_exact(remote, local, a);
        if p.actions.contains(a) {
            let k = choose|k: int| 0 <= k < p.actions.len() && p.actions[k] == a;
            if k < ups.len() {
                assert(ups[k] == a);
            } else {
                assert(dels[k - ups.len()] == a);
            }
        }
        if ups.contains(a) {
            let k = choose|k: int| 0 <= k < ups.len() && ups[k] == a;
            assert(p.actions[k] == a);
        }
        if dels.contains(a) {
            let k = choose|k: int| 0 <= k < dels.len() && dels[k] == a;
            assert(p.actions[k + ups.len()] == a);
        }
    }
    lemma_action_names();
    assert forall|i: int| 0 <= i < ups.len() implies (#[trigger] ups[i]).action == "upload"@ by {
        lemma_uploads_exact(local, remote, ups[i]);
        assert(ups.contains(ups[i]));
    }
    assert forall|i: int| 0 <= i < dels.len() implies (#[trigger] dels[i]).action == "delete"@ by {
        lemma_deletions_exact(remote, local, dels[i]);
        assert(dels.contains(dels[i]));
    }
    lemma_actions_of(ups, "upload"@, "delete"@);
    lemma_actions_of(dels, "delete"@, "upload"@);
    lemma_actions_concat(ups, dels, "upload"@);
    lemma_actions_concat(ups, dels, "delete"@);
}

proof fn lemma_upload_paths_once(local: Seq<FileView>, remote: Seq<FileView>)
    requires
        files::no_twins(local),
        files::no_twins(remote),
    ensures
        forall|i: int, j: int|
            0 <= i < j < sync::uploads(local, remote).len() ==> (#[trigger] sync::uploads(
                local,
                remote,
            )[i]).path != (#[trigger] sync::uploads(local, remote)[j]).path,
    decreases local.len(),
{
    if local.len() > 0 {
        let rest = local.drop_last();
        let f = local.last();
        let before = sync::uploads(rest, remote);
        let all = sync::uploads(local, remote);
        lemma_prefix_has_no_twins(local);
        lemma_upload_paths_once(rest, remote);
        assert forall|i: int| 0 <= i < before.len() implies (#[trigger] before[i]).path
            != f.path by {
            let a = before[i];
            lemma_uploads_exact(rest, remote, a);
            assert(before.contains(a));
            let g = FileView { path: a.path, size: a.size };
            let k = choose|k: int| 0 <= k < rest.len() && rest[k] == g;
            assert(local[k] == g);
            assert(local[local.len() - 1] == f);
        }
        assert forall|i: int, j: int| 0 <= i < j < all.len() implies (#[trigger] all[i]).path != (
        #[trigger] all[j]).path by {
            assert(all[i] == before[i]);
            if j < before.len() {
                assert(all[j] == before[j]);
            }
        }
    }
}

proof fn lemma_deletion_paths_once(remote: Seq<FileView>, local: Seq<FileView>)
    requires
        files::no_twins(local),
        files::no_twins(remote),
    ensures
        forall|i: int, j: int|
            0 <= i < j < sync::deletions(remote, local).len() ==> (#[trigger] sync::deletions(
                remote,
                local,
            )[i]).path != (#[trigger] sync::deletions(remote, local)[j]).path,
    decreases remote.len(),
{
    if remote.len() > 0 {
        let rest = remote.drop_last();
        let f = remote.last();
        let before = sync::deletions(rest, local);
        let all = sync::deletions(remote, local);
        lemma_prefix_has_no_twins(remote);
        lemma_deletion_paths_once(rest, local);
        assert forall|i: int| 0 <= i < before.len() implies (#[trigger] before[i]).path
            != f.path by {
            let a = before[i];
            lemma_deletions_exact(rest, local, a);
            assert(before.contains(a));
            let g = FileView { path: a.path, size: a.size };
            let k = choose|k: int| 0 <= k < rest.len() && rest[k] == g;
            assert(remote[k] == g);
            assert(remote[remote.len() - 1] == f);
        }
        assert forall|i: int, j: int| 0 <= i < j < all.len() implies (#[trigger] all[i]).path != (
        #[trigger] all[j]).path by {
            assert(all[i] == before[i]);
            if j < before.len() {
                assert(all[j] == before[j]);
            }
        }
    }
}

/// A plan names each path once, and it uploads before it deletes.
pub proof fn law_plan_names_each_path_once(local: Seq<FileView>, remote: Seq<FileView>)
    requires
        files::no_twins(local),
        files::no_twins(remote),
    ensures
        ({
            let actions = sync::plan(local, remote).actions;
            forall|i: int, j: int|
                0 <= i < j < actions.len() ==> (#[trigger] actions[i]).path != (
                #[trigger] actions[j]).path && (actions[j].action == "upload"@
                    ==> actions[i].action == "upload"@)
        }),
{
    let actions = sync::plan(local, remote).actions;
    let ups = sync::uploads(local, remote);
    let dels = sync::deletions(remote, local);
    let n = ups.len();
    lemma_upload_paths_once(local, remote);
    lemma_deletion_paths_once(remote, local);
    lemma_action_names();
    assert forall|i: int, j: int| 0 <= i < j < actions.len() implies (#[trigger] actions[i]).path
        != (#[trigger] actions[j]).path && (actions[j].action == "upload"@ ==> actions[i].action
        == "upload"@) by {
        if i < n {
            let a = ups[i];
            assert(actions[i] == a);
            lemma_uploads_exact(local, remote, a);
            assert(ups.contains(a));
            assert(has_path(local, a.path));
            if j < n {
                assert(actions[j] == ups[j]);
            } else {
                let b = dels[j - n];
                assert(actions[j] == b);
                lemma_deletions_exact(remote, local, b);
                assert(dels.contains(b));
            }
        } else {
            assert(actions[i] == dels[i - n]);
            assert(actions[j] == dels[j - n]);
            let b = dels[j - n];
            lemma_deletions_exact(remote, local, b);
            assert(dels.contains(b));
        }
    }
}

/// Whether a side has a file with one path before a file with another path.
pub open spec fn has_before(side: Seq<FileView>, p: Seq<char>, q: Seq<char>) -> bool {
    exists|a: int, b: int|
        0 <= a < b < side.len() && (#[trigger] side[a]).path == p && (#[trigger] side[b]).path == q
}

proof fn lemma_uploads_in_order(local: Seq<FileView>, remote: Seq<FileView>)
    requires
        files::no_twins(remote),
    ensures
        forall|i: int, j: int|
            0 <= i < j < sync::uploads(local, remote).len() ==> has_before(
                local,
                (#[trigger] sync::uploads(local, remote)[i]).path,
                (#[trigger] sync::uploads(local, remote)[j]).path,
            ),
    decreases local.len(),
{
    if local.len() > 0 {
        let rest = local.drop_last();
        let before = sync::uploads(rest, remote);
        let all = sync::uploads(local, remote);
        let n = local.len() - 1;
        lemma_uploads_in_order(rest, remote);
        assert forall|i: int, j: int| 0 <= i < j < all.len() implies has_before(
            local,
            (#[trigger] all[i]).path,
            (#[trigger] all[j]).path,
        ) by {
            assert(all[i] == before[i]);
            if j < before.len() {
                assert(all[j] == before[j]);
                let (a, b) = choose|a: int, b: int|
                    0 <= a < b < rest.len() && (#[trigger] rest[a]).path == before[i].path && (
                    #[trigger] rest[b]).path == before[j].path;
                assert(local[a] == rest[a] && local[b] == rest[b]);
            } else {
                let x = before[i];
                lemma_uploads_exact(rest, remote, x);
                assert(before.contains(x));
                let g = FileView { path: x.path, size: x.size };
                let a = choose|a: int| 0 <= a < rest.len() && rest[a] == g;
                assert(local[a] == g);
                assert(local[n].path == all[j].path);
            }
        }
    }
}

proof fn lemma_deletions_in_order(remote: Seq<FileView>, local: Seq<FileView>)
    requires
        files::no_twins(local),
    ensures
        forall|i: int, j: int|
            0 <= i < j < sync::deletions(remote, local).len() ==> has_before(
                remote,
                (#[trigger] sync::deletions(remote, local)[i]).path,
                (#[trigger] sync::deletions(remote, local)[j]).path,
            ),
    decreases remote.len(),
{
    if remote.len() > 0 {
        let rest = remote.drop_last();
        let before = sync::deletions(rest, local);
        let all = sync::deletions(remote, local);
        let n = remote.len() - 1;
        lemma_deletions_in_order(rest, local);
        assert forall|i: int, j: int| 0 <= i < j < all.len() implies has_before(
            remote,
            (#[trigger] all[i]).path,
            (#[trigger] all[j]).path,
        ) by {
            assert(all[i] == before[i]);
            if j < before.len() {
                assert(all[j] == before[j]);
                let (a, b) = choose|a: int, b: int|
                    0 <= a < b < rest.len() && (#[trigger] rest[a]).path == before[i].path && (
                    #[trigger] rest[b]).path == before[j].path;
                assert(remote[a] == rest[a] && remote[b] == rest[b]);
            } else {
                let x = before[i];
                lemma_deletions_exact(rest, local, x);
                assert(before.contains(x));
                let g = FileView { path: x.path, size: x.size };
                let a = choose|a: int| 0 <= a < rest.len() && rest[a] == g;
                assert(remote[a] == g);
                assert(remote[n].path == all[j].path);
            }
        }
    }
}

/// A plan uploads in the order of the local files, and deletes in that of the remote ones.
pub proof fn law_plan_keeps_the_order(local: Seq<FileView>, remote: Seq<FileView>)
    requires
        files::no_twins(local),
        files::no_twins(remote),
    ensures
        ({
            let actions = sync::plan(local, remote).actions;
            forall|i: int, j: int|
                0 <= i < j < actions.len() && (#[trigger] actions[i]).action == (
                #[trigger] actions[j]).action ==> has_before(
                    if actions[i].action == "upload"@ {
                        local
                    } else {
                        remote
                    },
                    actions[i].path,
                    actions[j].path,
                )
        }),
{
    let actions = sync::plan(local, remote).actions;
    let ups = sync::uploads(local, remote);
    let dels = sync::deletions(remote, local);
    let n = ups.len();
    lemma_uploads_in_order(local, remote);
    lemma_deletions_in_order(remote, local);
    lemma_action_names();
    assert forall|i: int, j: int|
        0 <= i < j < actions.len() && (#[trigger] actions[i]).action == (
        #[trigger] actions[j]).action implies has_before(
        if actions[i].action == "upload"@ {
            local
        } else {
            remote
        },
        actions[i].path,
        actions[j].path,
    ) by {
        if i < n {
            assert(actions[i] == ups[i]);
            lemma_uploads_exact(local, remote, ups[i]);
            assert(ups.contains(ups[i]));
            if j < n {
                assert(actions[j] == ups[j]);
            } else {
                assert(actions[j] == dels[j - n]);
                lemma_deletions_exact(remote, local, dels[j - n]);
                assert(dels.contains(dels[j - n]));
            }
        } else {
            assert(actions[i] == dels[i - n]);
            assert(actions[j] == dels[j - n]);
            lemma_deletions_exact(remote, local, dels[i - n]);
            assert(dels.contains(dels[i - n]));
        }
    }
}

/// While a plan is carried out, the content of a local file is asked for exactly where
/// the next action uploads this file. A dry run asks for nothing and is finished.
pub proof fn law_content_is_asked_for_uploads(
    local: Seq<FileView>,
    remote: Seq<FileView>,
    done: nat,
    dry_run: bool,
)
    requires
        files::no_twins(local),
        files::no_twins(remote),
    ensures
        ({
            let p = sync::plan(local, remote);
            match sync::need_after(p, done, dry_run) {
                NeedView::Finished => dry_run || done >= p.actions.len(),
                NeedView::Content { path } => !dry_run && done < p.actions.len()
                    && p.actions[done as int].path == path && has_path(local, path),
                NeedView::Nothing => !dry_run && done < p.actions.len() && !has_path(
                    local,
                    p.actions[done as int].path,
                ),
            }
        }),
{
    let p = sync::plan(local, remote);
    law_plan_is_exact(local, remote);
    lemma_action_names();
    if done < p.actions.len() {
        let a = p.actions[done as int];
        assert(p.actions.contains(a));
        assert(is_due(local, remote, a));
        if a.action == "upload"@ {
            assert(has_file(local, a.path, a.size));
        }
    }
}

proof fn lemma_counted_short(s: Seq<EntryView>, status: Seq<char>)
    requires
        s.len() <= 1,
    ensures
        counted(s, status) == (if s.len() == 1 && s[0].status == status {
            1nat
        } else {
            0
        }),
{
    reveal(Seq::filter);
    let p = |e: EntryView| e.status == status;
    if s.len() == 1 {
        assert(s.drop_last().len() == 0);
        assert(s.drop_last().filter(p).len() == 0);
        assert(s.last() == s[0]);
    }
}

/// Comparing a single file is comparing two sides of one file each, or of none where
/// the device has no such file.
pub proof fn law_single_file_is_compared_alike(
    name: Seq<char>,
    size: u64,
    stat: Result<StatView, ErrorView>,
    e: EntryView,
)
    ensures
        ({
            let local = seq![FileView { path: name, size }];
            let remote = match stat {
                Ok(s) => seq![FileView { path: name, size: s.size }],
                Err(_) => Seq::empty(),
            };
            let d = remote::file_difference(name, size, stat);
            &&& d.entries.contains(e) <==> is_owed(local, remote, e)
            &&& d.entries.len() <= 1
            &&& d.new_count == counted(d.entries, "new"@)
            &&& d.changed_count == counted(d.entries, "changed"@)
            &&& d.deleted_count == counted(d.entries, "deleted"@)
        }),
{
    let f = FileView { path: name, size };
    let local = seq![f];
    let remote = match stat {
        Ok(s) => seq![FileView { path: name, size: s.size }],
        Err(_) => Seq::empty(),
    };
    let d = remote::file_difference(name, size, stat);
    sync::lemma_status_names();
    assert forall|p: Seq<char>, n: u64|
        #![trigger has_file(local, p, n)]
        #![trigger has_file(remote, p, n)]
        (has_file(local, p, n) <==> p == name && n == size) && (has_file(remote, p, n) <==> p == name
            && stat is Ok && n == stat->Ok_0.size) by {
        if p == name && n == size {
            assert(local[0] == FileView { path: p, size: n });
        }
        if stat is Ok && p == name && n == stat->Ok_0.size {
            assert(remote[0] == FileView { path: p, size: n });
        }
    }
    assert(has_file(local, name, size));
    assert(stat is Ok ==> has_file(remote, name, stat->Ok_0.size));
    assert(has_path(local, name));
    assert(has_path(remote, name) <==> stat is Ok);
    lemma_counted_short(d.entries, "new"@);
    lemma_counted_short(d.entries, "changed"@);
    lemma_counted_short(d.entries, "deleted"@);
    if d.entries.len() > 0 {
        let x = d.entries[0];
        assert(d.entries.contains(e) <==> e == x) by {
            assert(d.entries.contains(x));
        }
    }
}

// ---------------------------------------------------------------------------
// Syncing and comparing with a device
// ---------------------------------------------------------------------------

/// The differences are listed in the order of their paths, and no path is listed twice.
pub proof fn law_comparison_is_sorted(local: Seq<FileView>, remote: Seq<FileView>, d: DiffView)
    requires
        files::no_twins(local),
        files::no_twins(remote),
        sync::compares(local, remote, d),
    ensures
        forall|i: int, j: int|
            0 <= i < j < d.entries.len() ==> text_laws::comes_before(
                (#[trigger] d.entries[i]).path,
                (#[trigger] d.entries[j]).path,
            ),
{
    let all = sync::all_entries(local, remote);
    lemma_all_paths_once(local, remote);
    assert forall|i: int, j: int| 0 <= i < j < d.entries.len() implies text_laws::comes_before(
        (#[trigger] d.entries[i]).path,
        (#[trigger] d.entries[j]).path,
    ) by {
        let a = d.entries[i].path;
        let b = d.entries[j].path;
        assert(!files::precedes(b, a));
        files::lemma_precedes_total(a, b);
        lemma_listed_paths_differ(all, d.entries, i, j);
        text_laws::law_paths_are_ordered_by_characters(a, b);
    }
}

proof fn lemma_all_paths_once(local: Seq<FileView>, remote: Seq<FileView>)
    requires
        files::no_twins(local),
        files::no_twins(remote),
    ensures
        paths_differ(sync::all_entries(local, remote)),
{
    let a = sync::local_entries(local, remote);
    let b = sync::remote_entries(remote, local);
    let all = sync::all_entries(local, remote);
    lemma_local_paths(local, remote);
    lemma_remote_paths(remote, local);
    assert(all == a + b);
    assert forall|i: int, j: int| 0 <= i < j < all.len() implies (#[trigger] all[i]).path != (
    #[trigger] all[j]).path by {
        if j < a.len() {
            assert(all[i] == a[i] && all[j] == a[j]);
        } else if i >= a.len() {
            assert(all[i] == b[i - a.len()] && all[j] == b[j - a.len()]);
        } else {
            assert(all[i] == a[i] && all[j] == b[j - a.len()]);
        }
    }
}

/// Whether no two entries have the same path.
pub open spec fn paths_differ(s: Seq<EntryView>) -> bool {
    forall|i: int, j: int| 0 <= i < j < s.len() ==> (#[trigger] s[i]).path != (#[trigger] s[j]).path
}

proof fn lemma_listed_paths_differ(
    all: Seq<EntryView>,
    listed: Seq<EntryView>,
    i: int,
    j: int,
)
    requires
        paths_differ(all),
        listed.to_multiset() == all.to_multiset(),
        0 <= i < j < listed.len(),
    ensures
        listed[i].path != listed[j].path,
{
    let x = listed[i];
    let y = listed[j];
    if x.path == y.path {
        listed.to_multiset_ensures();
        all.to_multiset_ensures();
        assert(listed.contains(x) && listed.contains(y));
        assert(all.contains(x) && all.contains(y)) by {
            assert(listed.to_multiset().count(x) > 0);
            assert(listed.to_multiset().count(y) > 0);
        }
        let p = choose|p: int| 0 <= p < all.len() && all[p] == x;
        let q = choose|q: int| 0 <= q < all.len() && all[q] == y;
        assert(p == q);
        assert(x == y);
        let less = listed.remove(i);
        assert(less[j - 1] == y);
        less.to_multiset_ensures();
        assert(less.contains(y));
        let fewer = all.remove(p);
        fewer.to_multiset_ensures();
        assert(less.to_multiset() =~= listed.to_multiset().remove(x));
        assert(fewer.to_multiset() =~= all.to_multiset().remove(x));
        assert(fewer.to_multiset().count(y) > 0) by {
            assert(less.to_multiset().count(y) > 0);
        }
        assert(fewer.contains(y));
        let k = choose|k: int| 0 <= k < fewer.len() && fewer[k] == y;
        if k < p {
            assert(all[k] == y);
        } else {
            assert(all[k + 1] == y);
        }
    }
}

/// A sync with a device tells what is due, given the files that were found there, and
/// fails with the error of the search.
pub proof fn law_sync_tells_what_is_due(
    local: Seq<FileView>,
    remote: Seq<FileView>,
    a: ActionView,
    e: ErrorView,
)
    requires
        files::no_twins(local),
        files::no_twins(remote),
    ensures
        ({
            let r = remote::sync_plan(local, Ok(remote));
            r matches Ok(p) && (p.actions.contains(a) <==> is_due(local, remote, a))
        }),
        remote::sync_plan(local, Err(e)) == Err::<StatsView, ErrorView>(e),
{
    law_plan_is_exact(local, remote);
}

/// A comparison with a device lists what is owed, given the files that were found there,
/// and fails with the error of the search and only with it.
pub proof fn law_diff_lists_what_is_owed(
    local: Seq<FileView>,
    found: Result<Seq<FileView>, ErrorView>,
    r: Result<DiffView, ErrorView>,
    e: EntryView,
)
    requires
        files::no_twins(local),
        found matches Ok(remote) ==> files::no_twins(remote),
        remote::compared(local, found, r),
    ensures
        match found {
            Ok(remote) => r matches Ok(d) && (d.entries.contains(e) <==> is_owed(
                local,
                remote,
                e,
            )),
            Err(x) => r == Err::<DiffView, ErrorView>(x),
        },
{
    match (found, r) {
        (Ok(remote), Ok(d)) => {
            law_comparison_is_exact(local, remote, d);
        },
        _ => {},
    }
}

/// A single file is compared with the remote path, or, where this ends with a slash, with
/// the file of the same name behind it. Without a status there the file is new.
pub proof fn law_single_file_has_a_counterpart(path: Seq<char>, name: Seq<char>)
    ensures
        path.len() > 0 && path.last() == '/' ==> remote::counterpart(path, name) == path + name,
        path.len() == 0 || path.last() != '/' ==> remote::counterpart(path, name) == path,
{
}

/// Comparing a single file asks the device for the status of its counterpart; comparing
/// a directory searches the one on the device.
pub proof fn law_diff_asks_the_device(
    pre: SessionView,
    local: LocalSide,
    scope: Scope,
    post: SessionView,
    r: Result<DiffView, ErrorView>,
)
    requires
        remote::differs(pre, local, scope, post, r),
    ensures
        match local {
            LocalSide::File { name, size } => exists|stat: Result<StatView, ErrorView>| #[trigger]
                device::stats(pre, remote::counterpart(scope.root, name@), post, stat) && r == Ok::<
                    DiffView,
                    ErrorView,
                >(remote::file_difference(name@, size, stat)),
            LocalSide::Files(sizes) => exists|found: Result<Seq<FileView>, ErrorView>| #[trigger]
                remote::finds(scope, pre, post, found) && remote::compared(sizes@, found, r),
        },
{
}

} // verus!
