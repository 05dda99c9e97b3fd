//! What a finished walk has taken up: every file of the tree that counts, once, and
//! nothing else.

use vstd::prelude::*;

use crate::device;
use crate::error::ErrorView;
use crate::files;
use crate::files::FileView;
use crate::remote;
use crate::remote::Answer;
use crate::remote::QueryView;
use crate::remote::Scope;
use crate::remote::Search;
use crate::replies::StatView;
use crate::session::SessionView;
use crate::text;
use crate::walk;
use crate::walk::GetActionView;
use crate::walk::GetItemView;
use crate::walk::GetState;
use crate::walk::LocalSearch;
use crate::walk::LocalView;
use crate::walk::PutActionView;
use crate::walk::PutItemView;
use crate::walk::PutState;

verus! {

// ---------------------------------------------------------------------------
// Trees
// ---------------------------------------------------------------------------

/// A file with its content, or a directory: its names, and what stands under each.
pub enum Tree {
    File { data: Seq<u8> },
    Dir { names: Seq<Seq<char>>, kids: Seq<Tree> },
}

impl Tree {
    /// Whether something stands under every name.
    pub open spec fn wf(self) -> bool {
        self.names().len() == self.kids().len()
    }

    /// The names in a directory.
    pub open spec fn names(self) -> Seq<Seq<char>> {
        match self {
            Tree::File { data } => Seq::empty(),
            Tree::Dir { names, kids } => names,
        }
    }

    /// What stands under the names in a directory.
    pub open spec fn kids(self) -> Seq<Tree> {
        match self {
            Tree::File { data } => Seq::empty(),
            Tree::Dir { names, kids } => kids,
        }
    }

    /// The entries of a directory.
    pub open spec fn entries(self) -> Seq<LocalView> {
        Seq::new(
            self.names().len(),
            |i: int| LocalView { name: self.names()[i], is_dir: self.kids()[i] is Dir },
        )
    }

    /// The content of a file.
    pub open spec fn data(self) -> Seq<u8> {
        match self {
            Tree::File { data } => data,
            Tree::Dir { names, kids } => Seq::empty(),
        }
    }
}

/// Whether local files are well formed: each relative path leads to a tree, and what
/// stands under a name in a directory stands at the path that is joined from both.
pub open spec fn local_disk(disk: Map<Seq<char>, Tree>) -> bool {
    &&& forall|rel: Seq<char>| #[trigger] disk.contains_key(rel) ==> disk[rel].wf()
    &&& forall|rel: Seq<char>, i: int|
        #![trigger disk[rel].kids()[i]]
        disk.contains_key(rel) && 0 <= i < disk[rel].kids().len() ==> {
            let path = walk::local_child(rel, disk[rel].names()[i]);
            disk.contains_key(path) && disk[path] == disk[rel].kids()[i]
        }
}

/// Whether the files of a device are well formed in the same way.
pub open spec fn device_disk(disk: Map<Seq<char>, Tree>) -> bool {
    &&& forall|dir: Seq<char>| #[trigger] disk.contains_key(dir) ==> disk[dir].wf()
    &&& forall|dir: Seq<char>, i: int|
        #![trigger disk[dir].kids()[i]]
        disk.contains_key(dir) && 0 <= i < disk[dir].kids().len() ==> {
            let path = remote::child(dir, disk[dir].names()[i]);
            disk.contains_key(path) && disk[path] == disk[dir].kids()[i]
        }
}

/// Which names are excluded, and which paths count.
pub struct Rules {
    pub excludes: Seq<Seq<char>>,
    pub paths: Option<Set<Seq<char>>>,
}

// ---------------------------------------------------------------------------
// Walking local directories
// ---------------------------------------------------------------------------

/// The paths of the files in a tree that a walk is to find: those that count and are
/// reached over names none of which is excluded.
pub open spec fn to_find(rules: Rules, rel: Seq<char>, tree: Tree) -> Set<Seq<char>>
    decreases tree, 1nat, 0nat,
{
    match tree {
        Tree::File { data } => if files::counts(rules.paths, rel) {
            set![rel]
        } else {
            Set::empty()
        },
        Tree::Dir { names, kids } => to_find_upto(rules, rel, tree, kids.len()),
    }
}

/// What `to_find` says of the first `n` names in a directory.
pub open spec fn to_find_upto(rules: Rules, rel: Seq<char>, tree: Tree, n: nat) -> Set<Seq<char>>
    decreases tree, 0nat, n,
{
    match tree {
        Tree::File { data } => Set::empty(),
        Tree::Dir { names, kids } => if n == 0 || n > kids.len() {
            Set::empty()
        } else {
            let i = n - 1;
            let before = to_find_upto(rules, rel, tree, (n - 1) as nat);
            if rules.excludes.contains(names[i]) {
                before
            } else {
                before.union(to_find(rules, walk::local_child(rel, names[i]), kids[i]))
            }
        },
    }
}

/// A walk over local files after `k` directories were listed.
pub open spec fn walked(
    rules: Rules,
    disk: Map<Seq<char>, Tree>,
    start: LocalSearch,
    k: nat,
) -> LocalSearch
    decreases k,
{
    if k == 0 {
        start
    } else {
        let s = walked(rules, disk, start, (k - 1) as nat);
        if s.pending.len() == 0 {
            s
        } else {
            walk::local_on(s, disk[s.pending.last()].entries(), rules.excludes, rules.paths)
        }
    }
}

/// What is still to be found below directories.
pub open spec fn left_to_find(
    rules: Rules,
    disk: Map<Seq<char>, Tree>,
    dirs: Seq<Seq<char>>,
) -> Set<Seq<char>>
    decreases dirs.len(),
{
    if dirs.len() == 0 {
        Set::empty()
    } else {
        left_to_find(rules, disk, dirs.drop_last()).union(
            to_find(rules, dirs.last(), disk[dirs.last()]),
        )
    }
}

/// Whether all paths lead to directories.
pub open spec fn are_dirs(disk: Map<Seq<char>, Tree>, dirs: Seq<Seq<char>>) -> bool {
    forall|i: int|
        0 <= i < dirs.len() ==> disk.contains_key(#[trigger] dirs[i]) && disk[dirs[i]] is Dir
}

/// The files found and those still to be found.
pub open spec fn in_sight(
    rules: Rules,
    disk: Map<Seq<char>, Tree>,
    s: LocalSearch,
) -> Set<Seq<char>> {
    s.found.to_set().union(left_to_find(rules, disk, s.pending))
}

proof fn lemma_with_path(paths: Seq<Seq<char>>, path: Seq<char>)
    requires
        paths.no_duplicates(),
    ensures
        walk::with_path(paths, path).to_set() == paths.to_set().insert(path),
        walk::with_path(paths, path).no_duplicates(),
{
    let more = walk::with_path(paths, path);
    assert forall|p: Seq<char>| more.contains(p) == (paths.contains(p) || p == path) by {
        if paths.contains(p) {
            let i = choose|i: int| 0 <= i < paths.len() && paths[i] == p;
            assert(more[i] == p);
        }
        if p == path && !paths.contains(path) {
            assert(more[paths.len() as int] == p);
        }
    }
    assert(more.to_set() =~= paths.to_set().insert(path));
}

proof fn lemma_listed_in_sight(
    rules: Rules,
    disk: Map<Seq<char>, Tree>,
    s: LocalSearch,
    dir: Seq<char>,
    n: nat,
)
    requires
        local_disk(disk),
        disk.contains_key(dir),
        disk[dir] is Dir,
        n <= disk[dir].kids().len(),
        are_dirs(disk, s.pending),
        s.found.no_duplicates(),
    ensures
        ({
            let t = walk::local_listed(
                s,
                dir,
                disk[dir].entries().take(n as int),
                rules.excludes,
                rules.paths,
            );
            &&& are_dirs(disk, t.pending)
            &&& t.found.no_duplicates()
            &&& in_sight(rules, disk, t) == in_sight(rules, disk, s).union(
                to_find_upto(rules, dir, disk[dir], n),
            )
        }),
    decreases n,
{
    let tree = disk[dir];
    let es = tree.entries().take(n as int);
    let t = walk::local_listed(s, dir, es, rules.excludes, rules.paths);
    if n == 0 {
        assert(in_sight(rules, disk, s).union(Set::empty()) =~= in_sight(rules, disk, s));
    } else {
        let i = n - 1;
        lemma_listed_in_sight(rules, disk, s, dir, i as nat);
        assert(es.drop_last() =~= tree.entries().take(i));
        let u = walk::local_listed(s, dir, es.drop_last(), rules.excludes, rules.paths);
        let name = tree.names()[i];
        let kid = tree.kids()[i];
        let path = walk::local_child(dir, name);
        assert(disk[dir].kids()[i] == kid);
        assert(es.last() == LocalView { name, is_dir: kid is Dir });
        if !rules.excludes.contains(name) {
            let before = to_find_upto(rules, dir, tree, i as nat);
            let more = to_find(rules, path, kid);
            if kid is Dir {
                assert(t.pending.drop_last() =~= u.pending);
                assert forall|j: int| 0 <= j < t.pending.len() implies disk.contains_key(
                    #[trigger] t.pending[j],
                ) && disk[t.pending[j]] is Dir by {
                    if j < u.pending.len() {
                        assert(t.pending[j] == u.pending[j]);
                    }
                }
            } else {
                lemma_with_path(u.found, path);
            }
            assert(in_sight(rules, disk, t) =~= in_sight(rules, disk, u).union(more));
            assert(in_sight(rules, disk, s).union(before).union(more) =~= in_sight(
                rules,
                disk,
                s,
            ).union(before.union(more)));
        }
    }
}

proof fn lemma_walked(rules: Rules, disk: Map<Seq<char>, Tree>, start: LocalSearch, k: nat)
    requires
        local_disk(disk),
        are_dirs(disk, start.pending),
        start.found.no_duplicates(),
    ensures
        ({
            let s = walked(rules, disk, start, k);
            &&& are_dirs(disk, s.pending)
            &&& s.found.no_duplicates()
            &&& in_sight(rules, disk, s) == in_sight(rules, disk, start)
        }),
    decreases k,
{
    if k > 0 {
        lemma_walked(rules, disk, start, (k - 1) as nat);
        let s = walked(rules, disk, start, (k - 1) as nat);
        if s.pending.len() > 0 {
            let dir = s.pending.last();
            assert(dir == s.pending[s.pending.len() - 1]);
            let t = LocalSearch { pending: s.pending.drop_last(), found: s.found };
            assert forall|j: int| 0 <= j < t.pending.len() implies disk.contains_key(
                #[trigger] t.pending[j],
            ) && disk[t.pending[j]] is Dir by {
                assert(t.pending[j] == s.pending[j]);
            }
            let tree = disk[dir];
            lemma_listed_in_sight(rules, disk, t, dir, tree.kids().len());
            assert(tree.entries().take(tree.kids().len() as int) =~= tree.entries());
            assert(in_sight(rules, disk, t).union(to_find(rules, dir, tree)) =~= in_sight(
                rules,
                disk,
                s,
            ));
        }
    }
}

/// When a walk over local files is finished, it has found exactly the files that
/// count and are reached over names none of which is excluded, each once.
pub proof fn law_local_walk_finds_every_file(rules: Rules, disk: Map<Seq<char>, Tree>, k: nat)
    requires
        local_disk(disk),
        disk.contains_key(Seq::empty()),
        disk[Seq::empty()] is Dir,
        walked(
            rules,
            disk,
            LocalSearch { pending: seq![Seq::empty()], found: Seq::empty() },
            k,
        ).pending.len() == 0,
    ensures
        ({
            let end = walked(
                rules,
                disk,
                LocalSearch { pending: seq![Seq::empty()], found: Seq::empty() },
                k,
            );
            &&& end.found.to_set() == to_find(rules, Seq::empty(), disk[Seq::empty()])
            &&& end.found.no_duplicates()
        }),
{
    let start = LocalSearch { pending: seq![Seq::empty()], found: Seq::empty() };
    let end = walked(rules, disk, start, k);
    lemma_walked(rules, disk, start, k);
    let all = to_find(rules, Seq::empty(), disk[Seq::empty()]);
    assert(start.pending.drop_last().len() == 0);
    assert(left_to_find(rules, disk, start.pending.drop_last()) == Set::<Seq<char>>::empty());
    assert(in_sight(rules, disk, start) =~= all);
    assert(in_sight(rules, disk, end) =~= end.found.to_set());
}

// ---------------------------------------------------------------------------
// Uploading
// ---------------------------------------------------------------------------

/// A file that was uploaded: its relative path, its path on the device, and its
/// content.
pub struct Sent {
    pub rel: Seq<char>,
    pub remote: Seq<char>,
    pub data: Seq<u8>,
}

/// The files of a tree that an upload is to send, in their order.
pub open spec fn to_send(rules: Rules, rel: Seq<char>, remote: Seq<char>, tree: Tree) -> Seq<Sent>
    decreases tree, 1nat, 0nat,
{
    match tree {
        Tree::File { data } => seq![Sent { rel, remote, data }],
        Tree::Dir { names, kids } => to_send_from(rules, rel, remote, tree, 0),
    }
}

/// What `to_send` says of the names in a directory from number `i` on. No excluded
/// name is entered, and of the files only those that count are sent.
pub open spec fn to_send_from(
    rules: Rules,
    rel: Seq<char>,
    remote: Seq<char>,
    tree: Tree,
    i: nat,
) -> Seq<Sent>
    decreases tree, 0nat, tree.kids().len() - i,
{
    match tree {
        Tree::File { data } => Seq::empty(),
        Tree::Dir { names, kids } => if i >= kids.len() {
            Seq::empty()
        } else {
            let name = names[i as int];
            let path = walk::local_child(rel, name);
            let here = if rules.excludes.contains(name) {
                Seq::empty()
            } else if kids[i as int] is Dir || files::counts(
                rules.paths,
                text::replaced(path, '\\', '/'),
            ) {
                to_send(rules, path, remote::child(remote, name), kids[i as int])
            } else {
                Seq::empty()
            };
            here + to_send_from(rules, rel, remote, tree, i + 1)
        },
    }
}

/// What was sent once a file of an upload was written.
pub open spec fn with_sent(sent: Seq<Sent>, s: PutState, data: Seq<u8>) -> Seq<Sent> {
    match s.pending.last() {
        PutItemView::File { rel, remote } if s.pending.len() > 0 => sent.push(
            Sent { rel, remote, data },
        ),
        _ => sent,
    }
}

/// An upload was asked what it needs, and got it from the disk: a directory was
/// listed, or a file was read and then written to the device.
pub open spec fn put_goes_on(
    rules: Rules,
    disk: Map<Seq<char>, Tree>,
    pre: SessionView,
    s: PutState,
    sent: Seq<Sent>,
    post: SessionView,
    t: PutState,
    more: Seq<Sent>,
) -> bool {
    exists|m: SessionView, u: PutState, a: PutActionView| #[trigger]
        walk::put_steps(pre, s, m, u, a) && match a {
            PutActionView::ListDir { rel } => {
                &&& post == m
                &&& t == walk::put_listed(u, disk[rel].entries(), rules.excludes, rules.paths)
                &&& more == sent
            },
            PutActionView::ReadFile { rel } => {
                &&& walk::put_writes(
                    m,
                    u,
                    disk[rel].data(),
                    post,
                    t,
                    Ok::<(), ErrorView>(()),
                )
                &&& more == with_sent(sent, u, disk[rel].data())
            },
            PutActionView::Finished { count } => post == m && t == u && more == sent,
        }
}

/// After `k` steps an upload from a disk has come to `s` and has sent files.
pub open spec fn uploads(
    rules: Rules,
    disk: Map<Seq<char>, Tree>,
    start: PutState,
    pre: SessionView,
    k: nat,
    post: SessionView,
    s: PutState,
    sent: Seq<Sent>,
) -> bool
    decreases k,
{
    if k == 0 {
        post == pre && s == start && sent == Seq::<Sent>::empty()
    } else {
        exists|m: SessionView, t: PutState, before: Seq<Sent>|
            uploads(rules, disk, start, pre, (k - 1) as nat, m, t, before)
                && #[trigger] put_goes_on(rules, disk, m, t, before, post, s, sent)
    }
}

/// The relative path of an item.
pub open spec fn item_rel(item: PutItemView) -> Seq<char> {
    match item {
        PutItemView::Dir { rel, remote } => rel,
        PutItemView::Open { rel, remote } => rel,
        PutItemView::File { rel, remote } => rel,
    }
}

/// The path of an item on the device.
pub open spec fn item_remote(item: PutItemView) -> Seq<char> {
    match item {
        PutItemView::Dir { rel, remote } => remote,
        PutItemView::Open { rel, remote } => remote,
        PutItemView::File { rel, remote } => remote,
    }
}

/// What items have still to send, the last one first.
pub open spec fn left_to_send(
    rules: Rules,
    disk: Map<Seq<char>, Tree>,
    items: Seq<PutItemView>,
) -> Seq<Sent>
    decreases items.len(),
{
    if items.len() == 0 {
        Seq::empty()
    } else {
        let item = items.last();
        to_send(rules, item_rel(item), item_remote(item), disk[item_rel(item)]) + left_to_send(
            rules,
            disk,
            items.drop_last(),
        )
    }
}

/// Whether an item stands for what is on the disk.
pub open spec fn put_fits(disk: Map<Seq<char>, Tree>, item: PutItemView) -> bool {
    disk.contains_key(item_rel(item)) && (item is File) == (disk[item_rel(item)] is File)
}

/// Whether all items stand for what is on the disk.
pub open spec fn all_put_fit(disk: Map<Seq<char>, Tree>, items: Seq<PutItemView>) -> bool {
    forall|i: int| 0 <= i < items.len() ==> put_fits(disk, #[trigger] items[i])
}

proof fn lemma_send_concat(
    rules: Rules,
    disk: Map<Seq<char>, Tree>,
    a: Seq<PutItemView>,
    b: Seq<PutItemView>,
)
    ensures
        left_to_send(rules, disk, a + b) == left_to_send(rules, disk, b) + left_to_send(
            rules,
            disk,
            a,
        ),
    decreases b.len(),
{
    if b.len() == 0 {
        assert(a + b =~= a);
        assert(left_to_send(rules, disk, b) + left_to_send(rules, disk, a) =~= left_to_send(
            rules,
            disk,
            a,
        ));
    } else {
        assert((a + b).drop_last() =~= a + b.drop_last());
        assert((a + b).last() == b.last());
        lemma_send_concat(rules, disk, a, b.drop_last());
        let item = b.last();
        let x = to_send(rules, item_rel(item), item_remote(item), disk[item_rel(item)]);
        let y = left_to_send(rules, disk, b.drop_last());
        let z = left_to_send(rules, disk, a);
        assert(x + (y + z) =~= (x + y) + z);
    }
}

proof fn lemma_put_children(
    rules: Rules,
    disk: Map<Seq<char>, Tree>,
    rel: Seq<char>,
    remote: Seq<char>,
    i: nat,
)
    requires
        local_disk(disk),
        disk.contains_key(rel),
        disk[rel] is Dir,
        i <= disk[rel].kids().len(),
    ensures
        ({
            let items = walk::put_children(
                rel,
                remote,
                disk[rel].entries().skip(i as int),
                rules.excludes,
                rules.paths,
            );
            &&& all_put_fit(disk, items)
            &&& left_to_send(rules, disk, items) == to_send_from(rules, rel, remote, disk[rel], i)
        }),
    decreases disk[rel].kids().len() - i,
{
    let tree = disk[rel];
    let es = tree.entries().skip(i as int);
    if i < tree.kids().len() {
        lemma_put_children(rules, disk, rel, remote, i + 1);
        assert(es.skip(1) =~= tree.entries().skip(i as int + 1));
        let name = tree.names()[i as int];
        let kid = tree.kids()[i as int];
        assert(disk[rel].kids()[i as int] == kid);
        assert(es[0] == LocalView { name, is_dir: kid is Dir });
        let path = walk::local_child(rel, name);
        let rest = walk::put_children(rel, remote, es.skip(1), rules.excludes, rules.paths);
        let items = walk::put_children(rel, remote, es, rules.excludes, rules.paths);
        let later = to_send_from(rules, rel, remote, tree, i + 1);
        assert(Seq::<Sent>::empty() + later =~= later);
        if !rules.excludes.contains(name) && (kid is Dir || files::counts(
            rules.paths,
            text::replaced(path, '\\', '/'),
        )) {
            assert(items.drop_last() =~= rest);
            assert(put_fits(disk, items.last()));
            assert forall|j: int| 0 <= j < items.len() implies put_fits(
                disk,
                #[trigger] items[j],
            ) by {
                if j < rest.len() {
                    assert(items[j] == rest[j]);
                }
            }
        }
    } else {
        assert(es.len() == 0);
    }
}

proof fn lemma_put_goes_on(
    rules: Rules,
    disk: Map<Seq<char>, Tree>,
    pre: SessionView,
    s: PutState,
    sent: Seq<Sent>,
    post: SessionView,
    t: PutState,
    more: Seq<Sent>,
)
    requires
        local_disk(disk),
        all_put_fit(disk, s.pending),
        put_goes_on(rules, disk, pre, s, sent, post, t, more),
    ensures
        all_put_fit(disk, t.pending),
        more + left_to_send(rules, disk, t.pending) == sent + left_to_send(rules, disk, s.pending),
        s.count == sent.len() && more.len() <= usize::MAX ==> t.count == more.len(),
{
    if s.pending.len() > 0 {
        let items = s.pending.drop_last();
        let item = s.pending.last();
        assert(put_fits(disk, s.pending[s.pending.len() - 1]));
        assert forall|i: int| 0 <= i < items.len() implies put_fits(disk, #[trigger] items[i]) by {
            assert(items[i] == s.pending[i]);
        }
        let rel = item_rel(item);
        let remote = item_remote(item);
        let tree = disk[rel];
        match item {
            PutItemView::File { rel, remote } => {
                let f = Sent { rel, remote, data: tree.data() };
                let rest = left_to_send(rules, disk, items);
                assert(to_send(rules, rel, remote, tree) == seq![f]);
                assert(sent.push(f) + rest =~= sent + (seq![f] + rest));
            },
            _ => {
                let kids = walk::put_children(
                    rel,
                    remote,
                    tree.entries(),
                    rules.excludes,
                    rules.paths,
                );
                assert(items.push(PutItemView::Open { rel, remote }).drop_last() =~= items);
                assert(t.pending == items + kids);
                assert(tree.entries().skip(0) =~= tree.entries());
                lemma_put_children(rules, disk, rel, remote, 0);
                lemma_send_concat(rules, disk, items, kids);
                assert forall|i: int| 0 <= i < t.pending.len() implies put_fits(
                    disk,
                    #[trigger] t.pending[i],
                ) by {
                    if i < items.len() {
                        assert(t.pending[i] == items[i]);
                    } else {
                        assert(t.pending[i] == kids[i - items.len()]);
                    }
                }
            },
        }
    }
}

proof fn lemma_uploads(
    rules: Rules,
    disk: Map<Seq<char>, Tree>,
    start: PutState,
    pre: SessionView,
    k: nat,
    post: SessionView,
    s: PutState,
    sent: Seq<Sent>,
)
    requires
        local_disk(disk),
        all_put_fit(disk, start.pending),
        start.count == 0,
        uploads(rules, disk, start, pre, k, post, s, sent),
    ensures
        all_put_fit(disk, s.pending),
        sent + left_to_send(rules, disk, s.pending) == left_to_send(rules, disk, start.pending),
        sent.len() <= usize::MAX ==> s.count == sent.len(),
    decreases k,
{
    if k == 0 {
        assert(sent + left_to_send(rules, disk, s.pending) =~= left_to_send(
            rules,
            disk,
            start.pending,
        ));
    } else {
        let (m, t, before) = choose|m: SessionView, t: PutState, before: Seq<Sent>|
            uploads(rules, disk, start, pre, (k - 1) as nat, m, t, before)
                && #[trigger] put_goes_on(rules, disk, m, t, before, post, s, sent);
        lemma_uploads(rules, disk, start, pre, (k - 1) as nat, m, t, before);
        lemma_put_goes_on(rules, disk, m, t, before, post, s, sent);
        assert(before.len() <= sent.len());
    }
}

/// When the upload of a directory is finished, it has sent exactly the files that
/// count and are reached over names none of which is excluded: each once, in order,
/// with its content and to its path. It has counted them, as far as the counter goes.
pub proof fn law_upload_sends_every_file(
    rules: Rules,
    disk: Map<Seq<char>, Tree>,
    rel: Seq<char>,
    remote: Seq<char>,
    pre: SessionView,
    k: nat,
    post: SessionView,
    s: PutState,
    sent: Seq<Sent>,
)
    requires
        local_disk(disk),
        disk.contains_key(rel),
        disk[rel] is Dir,
        uploads(
            rules,
            disk,
            PutState { pending: seq![PutItemView::Dir { rel, remote }], count: 0 },
            pre,
            k,
            post,
            s,
            sent,
        ),
        s.pending.len() == 0,
    ensures
        sent == to_send(rules, rel, remote, disk[rel]),
        sent.len() <= usize::MAX ==> s.count == sent.len(),
{
    let start = PutState { pending: seq![PutItemView::Dir { rel, remote }], count: 0 };
    lemma_uploads(rules, disk, start, pre, k, post, s, sent);
    let all = to_send(rules, rel, remote, disk[rel]);
    assert(start.pending.drop_last().len() == 0);
    assert(left_to_send(rules, disk, start.pending.drop_last()) == Seq::<Sent>::empty());
    assert(left_to_send(rules, disk, start.pending) =~= all);
    assert(sent + Seq::<Sent>::empty() =~= sent);
}

// ---------------------------------------------------------------------------
// Downloading
// ---------------------------------------------------------------------------

/// A file that was downloaded: the names that lead to it, and its content.
pub struct Saved {
    pub names: Seq<Seq<char>>,
    pub data: Seq<u8>,
}

/// The files of a tree, in their order.
pub open spec fn to_save(names: Seq<Seq<char>>, tree: Tree) -> Seq<Saved>
    decreases tree, 1nat, 0nat,
{
    match tree {
        Tree::File { data } => seq![Saved { names, data }],
        Tree::Dir { names: here, kids } => to_save_from(names, tree, 0),
    }
}

/// What `to_save` says of the names in a directory from number `i` on.
pub open spec fn to_save_from(names: Seq<Seq<char>>, tree: Tree, i: nat) -> Seq<Saved>
    decreases tree, 0nat, tree.kids().len() - i,
{
    match tree {
        Tree::File { data } => Seq::empty(),
        Tree::Dir { names: here, kids } => if i >= kids.len() {
            Seq::empty()
        } else {
            to_save(names.push(here[i as int]), kids[i as int]) + to_save_from(names, tree, i + 1)
        },
    }
}

/// A name in a directory of a download was looked at, and the device answered by
/// what is on it.
pub open spec fn enters_truly(
    disk: Map<Seq<char>, Tree>,
    pre: SessionView,
    s: GetState,
    remote: Seq<char>,
    names: Seq<Seq<char>>,
    post: SessionView,
    t: GetState,
    r: Result<GetActionView, ErrorView>,
) -> bool {
    exists|m: SessionView, stat: Result<StatView, ErrorView>| #[trigger]
        device::stats(pre, remote, m, stat) && walk::says_dir(stat) == (disk[remote] is Dir)
            && if disk[remote] is Dir {
            post == m && walk::get_entered(s, remote, names, t, r)
        } else {
            &&& device::reads(m, remote, post, Ok::<Seq<u8>, ErrorView>(disk[remote].data()))
            &&& walk::get_read(s, names, Ok::<Seq<u8>, ErrorView>(disk[remote].data()), t, r)
        }
}

/// A download made a step, in which the device answered by what is on it.
pub open spec fn get_goes_on(
    disk: Map<Seq<char>, Tree>,
    pre: SessionView,
    s: GetState,
    post: SessionView,
    t: GetState,
    r: Result<GetActionView, ErrorView>,
) -> bool {
    &&& walk::get_steps(pre, s, post, t, r)
    &&& match s.pending.last() {
        GetItemView::Open { remote, names } if s.pending.len() > 0 => {
            let listed = Ok::<Seq<Seq<char>>, ErrorView>(disk[remote].names());
            &&& device::lists(pre, remote, post, listed)
            &&& walk::get_listed(s, remote, names, listed, t, r)
        },
        GetItemView::Entry { remote, names } if s.pending.len() > 0 => enters_truly(
            disk,
            pre,
            s,
            remote,
            names,
            post,
            t,
            r,
        ),
        _ => true,
    }
}

/// What was saved after a step of a download.
pub open spec fn with_saved(
    saved: Seq<Saved>,
    r: Result<GetActionView, ErrorView>,
) -> Seq<Saved> {
    match r {
        Ok(GetActionView::Save { names, data }) => saved.push(Saved { names, data }),
        _ => saved,
    }
}

/// A download made a step, and a file that it had to tell was saved.
pub open spec fn saves_on(
    disk: Map<Seq<char>, Tree>,
    pre: SessionView,
    s: GetState,
    saved: Seq<Saved>,
    post: SessionView,
    t: GetState,
    more: Seq<Saved>,
) -> bool {
    exists|r: Result<GetActionView, ErrorView>| #[trigger]
        get_goes_on(disk, pre, s, post, t, r) && more == with_saved(saved, r)
}

/// After `k` steps a download from a device with a disk has come to `s` and has
/// saved files.
pub open spec fn downloads(
    disk: Map<Seq<char>, Tree>,
    start: GetState,
    pre: SessionView,
    k: nat,
    post: SessionView,
    s: GetState,
    saved: Seq<Saved>,
) -> bool
    decreases k,
{
    if k == 0 {
        post == pre && s == start && saved == Seq::<Saved>::empty()
    } else {
        exists|m: SessionView, t: GetState, before: Seq<Saved>|
            downloads(disk, start, pre, (k - 1) as nat, m, t, before)
                && #[trigger] saves_on(disk, m, t, before, post, s, saved)
    }
}

/// The path of an item on the device.
pub open spec fn get_remote(item: GetItemView) -> Seq<char> {
    match item {
        GetItemView::Dir { remote, names } => remote,
        GetItemView::Open { remote, names } => remote,
        GetItemView::Entry { remote, names } => remote,
    }
}

/// The names that lead to an item.
pub open spec fn get_names(item: GetItemView) -> Seq<Seq<char>> {
    match item {
        GetItemView::Dir { remote, names } => names,
        GetItemView::Open { remote, names } => names,
        GetItemView::Entry { remote, names } => names,
    }
}

/// What items have still to save, the last one first.
pub open spec fn left_to_save(disk: Map<Seq<char>, Tree>, items: Seq<GetItemView>) -> Seq<Saved>
    decreases items.len(),
{
    if items.len() == 0 {
        Seq::empty()
    } else {
        let item = items.last();
        to_save(get_names(item), disk[get_remote(item)]) + left_to_save(disk, items.drop_last())
    }
}

/// Whether an item stands for what is on the disk. A name can be either.
pub open spec fn get_fits(disk: Map<Seq<char>, Tree>, item: GetItemView) -> bool {
    disk.contains_key(get_remote(item)) && (item is Entry || disk[get_remote(item)] is Dir)
}

/// Whether all items stand for what is on the disk.
pub open spec fn all_get_fit(disk: Map<Seq<char>, Tree>, items: Seq<GetItemView>) -> bool {
    forall|i: int| 0 <= i < items.len() ==> get_fits(disk, #[trigger] items[i])
}

proof fn lemma_save_concat(
    disk: Map<Seq<char>, Tree>,
    a: Seq<GetItemView>,
    b: Seq<GetItemView>,
)
    ensures
        left_to_save(disk, a + b) == left_to_save(disk, b) + left_to_save(disk, a),
    decreases b.len(),
{
    if b.len() == 0 {
        assert(a + b =~= a);
        assert(left_to_save(disk, b) + left_to_save(disk, a) =~= left_to_save(disk, a));
    } else {
        assert((a + b).drop_last() =~= a + b.drop_last());
        assert((a + b).last() == b.last());
        lemma_save_concat(disk, a, b.drop_last());
        let x = to_save(get_names(b.last()), disk[get_remote(b.last())]);
        let y = left_to_save(disk, b.drop_last());
        let z = left_to_save(disk, a);
        assert(x + (y + z) =~= (x + y) + z);
    }
}

proof fn lemma_get_children(
    disk: Map<Seq<char>, Tree>,
    remote: Seq<char>,
    names: Seq<Seq<char>>,
    i: nat,
)
    requires
        device_disk(disk),
        disk.contains_key(remote),
        disk[remote] is Dir,
        i <= disk[remote].kids().len(),
    ensures
        ({
            let items = walk::get_children(remote, names, disk[remote].names().skip(i as int));
            &&& all_get_fit(disk, items)
            &&& left_to_save(disk, items) == to_save_from(names, disk[remote], i)
        }),
    decreases disk[remote].kids().len() - i,
{
    let tree = disk[remote];
    let ns = tree.names().skip(i as int);
    if i < tree.kids().len() {
        lemma_get_children(disk, remote, names, i + 1);
        assert(ns.skip(1) =~= tree.names().skip(i as int + 1));
        assert(disk[remote].kids()[i as int] == tree.kids()[i as int]);
        let rest = walk::get_children(remote, names, ns.skip(1));
        let items = walk::get_children(remote, names, ns);
        assert(items.drop_last() =~= rest);
        assert(get_fits(disk, items.last()));
        assert forall|j: int| 0 <= j < items.len() implies get_fits(disk, #[trigger] items[j]) by {
            if j < rest.len() {
                assert(items[j] == rest[j]);
            }
        }
    } else {
        assert(ns.len() == 0);
    }
}

proof fn lemma_get_goes_on(
    disk: Map<Seq<char>, Tree>,
    pre: SessionView,
    s: GetState,
    saved: Seq<Saved>,
    post: SessionView,
    t: GetState,
    r: Result<GetActionView, ErrorView>,
)
    requires
        device_disk(disk),
        all_get_fit(disk, s.pending),
        get_goes_on(disk, pre, s, post, t, r),
    ensures
        ({
            let more = with_saved(saved, r);
            &&& all_get_fit(disk, t.pending)
            &&& more + left_to_save(disk, t.pending) == saved + left_to_save(disk, s.pending)
            &&& s.count == saved.len() && more.len() <= usize::MAX ==> t.count == more.len()
        }),
{
    if s.pending.len() > 0 {
        let items = s.pending.drop_last();
        let item = s.pending.last();
        assert(get_fits(disk, s.pending[s.pending.len() - 1]));
        assert forall|i: int| 0 <= i < items.len() implies get_fits(disk, #[trigger] items[i]) by {
            assert(items[i] == s.pending[i]);
        }
        let remote = get_remote(item);
        let names = get_names(item);
        let tree = disk[remote];
        if item is Open {
            let kids = walk::get_children(remote, names, tree.names());
            assert(tree.names().skip(0) =~= tree.names());
            lemma_get_children(disk, remote, names, 0);
            lemma_save_concat(disk, items, kids);
            assert forall|i: int| 0 <= i < t.pending.len() implies get_fits(
                disk,
                #[trigger] t.pending[i],
            ) by {
                if i < items.len() {
                    assert(t.pending[i] == items[i]);
                } else {
                    assert(t.pending[i] == kids[i - items.len()]);
                }
            }
        } else if item is Dir || tree is Dir {
            assert(t.pending.drop_last() =~= items);
            assert forall|i: int| 0 <= i < t.pending.len() implies get_fits(
                disk,
                #[trigger] t.pending[i],
            ) by {
                if i < items.len() {
                    assert(t.pending[i] == items[i]);
                }
            }
        } else {
            let f = Saved { names, data: tree.data() };
            let rest = left_to_save(disk, items);
            assert(to_save(names, tree) == seq![f]);
            assert(saved.push(f) + rest =~= saved + (seq![f] + rest));
        }
    }
}

proof fn lemma_downloads(
    disk: Map<Seq<char>, Tree>,
    start: GetState,
    pre: SessionView,
    k: nat,
    post: SessionView,
    s: GetState,
    saved: Seq<Saved>,
)
    requires
        device_disk(disk),
        all_get_fit(disk, start.pending),
        start.count == 0,
        downloads(disk, start, pre, k, post, s, saved),
    ensures
        all_get_fit(disk, s.pending),
        saved + left_to_save(disk, s.pending) == left_to_save(disk, start.pending),
        saved.len() <= usize::MAX ==> s.count == saved.len(),
    decreases k,
{
    if k == 0 {
        assert(saved + left_to_save(disk, s.pending) =~= left_to_save(disk, start.pending));
    } else {
        let (m, t, before) = choose|m: SessionView, t: GetState, before: Seq<Saved>|
            downloads(disk, start, pre, (k - 1) as nat, m, t, before)
                && #[trigger] saves_on(disk, m, t, before, post, s, saved);
        let r = choose|r: Result<GetActionView, ErrorView>| #[trigger]
            get_goes_on(disk, m, t, post, s, r) && saved == with_saved(before, r);
        lemma_downloads(disk, start, pre, (k - 1) as nat, m, t, before);
        lemma_get_goes_on(disk, m, t, before, post, s, r);
        assert(before.len() <= saved.len());
    }
}

/// When the download of a directory is finished, it has saved exactly the files on
/// the device: each once, in order, with its content and under its names. It has
/// counted them, as far as the counter goes.
pub proof fn law_download_saves_every_file(
    disk: Map<Seq<char>, Tree>,
    remote: Seq<char>,
    pre: SessionView,
    k: nat,
    post: SessionView,
    s: GetState,
    saved: Seq<Saved>,
)
    requires
        device_disk(disk),
        disk.contains_key(remote),
        disk[remote] is Dir,
        downloads(
            disk,
            GetState {
                pending: seq![GetItemView::Dir { remote, names: Seq::empty() }],
                count: 0,
            },
            pre,
            k,
            post,
            s,
            saved,
        ),
        s.pending.len() == 0,
    ensures
        saved == to_save(Seq::empty(), disk[remote]),
        saved.len() <= usize::MAX ==> s.count == saved.len(),
{
    let start = GetState {
        pending: seq![GetItemView::Dir { remote, names: Seq::empty() }],
        count: 0,
    };
    lemma_downloads(disk, start, pre, k, post, s, saved);
    let all = to_save(Seq::empty(), disk[remote]);
    assert(start.pending.drop_last().len() == 0);
    assert(left_to_save(disk, start.pending.drop_last()) == Seq::<Saved>::empty());
    assert(left_to_save(disk, start.pending) =~= all);
    assert(saved + Seq::<Saved>::empty() =~= saved);
}

// ---------------------------------------------------------------------------
// Searching a device
// ---------------------------------------------------------------------------

/// The files that a search is to find at a path, in their order: those that count
/// and are reached over names none of which is excluded.
pub open spec fn to_count(scope: Scope, path: Seq<char>, name: Seq<char>, tree: Tree) -> Seq<
    FileView,
>
    decreases tree, 1nat, 0nat,
{
    match tree {
        Tree::File { data } => {
            let rel = remote::below(scope.root, path, name);
            if files::counts(scope.paths, rel) {
                seq![FileView { path: rel, size: data.len() as u64 }]
            } else {
                Seq::empty()
            }
        },
        Tree::Dir { names, kids } => to_count_from(scope, path, tree, 0),
    }
}

/// What `to_count` says of the names in a directory from number `i` on.
pub open spec fn to_count_from(scope: Scope, path: Seq<char>, tree: Tree, i: nat) -> Seq<FileView>
    decreases tree, 0nat, tree.kids().len() - i,
{
    match tree {
        Tree::File { data } => Seq::empty(),
        Tree::Dir { names, kids } => if i >= kids.len() {
            Seq::empty()
        } else {
            let name = names[i as int];
            let later = to_count_from(scope, path, tree, i + 1);
            if scope.excludes.contains(name) {
                later
            } else {
                to_count(scope, remote::child(path, name), name, kids[i as int]) + later
            }
        },
    }
}

/// Files with more files, added one after the other.
pub open spec fn with_files(s: Seq<FileView>, more: Seq<FileView>) -> Seq<FileView>
    decreases more.len(),
{
    if more.len() == 0 {
        s
    } else {
        with_files(files::with_file(s, more[0].path, more[0].size), more.skip(1))
    }
}

/// Whether an answer is what the disk says.
pub open spec fn is_true(disk: Map<Seq<char>, Tree>, q: QueryView, a: Answer) -> bool {
    match (q, a) {
        (QueryView::List { path }, Answer::Listed(Ok(names))) => names == disk[path].names(),
        (QueryView::Stat { path, name }, Answer::Stated(Ok(stat))) => {
            &&& stat.is_dir == (disk[path] is Dir)
            &&& stat.is_dir || stat.size == disk[path].data().len()
        },
        _ => false,
    }
}

/// After `k` queries, all of which the device answered by what is on it, a search
/// has come to `s`.
pub open spec fn searches_truly(
    scope: Scope,
    disk: Map<Seq<char>, Tree>,
    pre: SessionView,
    k: nat,
    post: SessionView,
    s: Search,
) -> bool
    decreases k,
{
    if k == 0 {
        post == pre && s == remote::search_start(scope)
    } else {
        exists|m: SessionView, t: Search, a: Answer|
            searches_truly(scope, disk, pre, (k - 1) as nat, m, t)
                && #[trigger] remote::searches_on(scope, m, t, a, post, s) && is_true(
                disk,
                t.pending.last(),
                a,
            )
    }
}

/// The files to which a query leads.
pub open spec fn query_files(scope: Scope, disk: Map<Seq<char>, Tree>, q: QueryView) -> Seq<
    FileView,
> {
    match q {
        QueryView::List { path } => to_count_from(scope, path, disk[path], 0),
        QueryView::Stat { path, name } => to_count(scope, path, name, disk[path]),
    }
}

/// The files to which queries lead, those of the last one first.
pub open spec fn left_to_count(
    scope: Scope,
    disk: Map<Seq<char>, Tree>,
    queries: Seq<QueryView>,
) -> Seq<FileView>
    decreases queries.len(),
{
    if queries.len() == 0 {
        Seq::empty()
    } else {
        query_files(scope, disk, queries.last()) + left_to_count(scope, disk, queries.drop_last())
    }
}

/// Whether a query asks for what is on the disk.
pub open spec fn query_fits(disk: Map<Seq<char>, Tree>, q: QueryView) -> bool {
    match q {
        QueryView::List { path } => disk.contains_key(path) && disk[path] is Dir,
        QueryView::Stat { path, name } => disk.contains_key(path),
    }
}

/// Whether all queries ask for what is on the disk.
pub open spec fn all_queries_fit(disk: Map<Seq<char>, Tree>, queries: Seq<QueryView>) -> bool {
    forall|i: int| 0 <= i < queries.len() ==> query_fits(disk, #[trigger] queries[i])
}

proof fn lemma_count_concat(
    scope: Scope,
    disk: Map<Seq<char>, Tree>,
    a: Seq<QueryView>,
    b: Seq<QueryView>,
)
    ensures
        left_to_count(scope, disk, a + b) == left_to_count(scope, disk, b) + left_to_count(
            scope,
            disk,
            a,
        ),
    decreases b.len(),
{
    if b.len() == 0 {
        assert(a + b =~= a);
        assert(left_to_count(scope, disk, b) + left_to_count(scope, disk, a) =~= left_to_count(
            scope,
            disk,
            a,
        ));
    } else {
        assert((a + b).drop_last() =~= a + b.drop_last());
        assert((a + b).last() == b.last());
        lemma_count_concat(scope, disk, a, b.drop_last());
        let x = query_files(scope, disk, b.last());
        let y = left_to_count(scope, disk, b.drop_last());
        let z = left_to_count(scope, disk, a);
        assert(x + (y + z) =~= (x + y) + z);
    }
}

proof fn lemma_child_queries(scope: Scope, disk: Map<Seq<char>, Tree>, path: Seq<char>, i: nat)
    requires
        device_disk(disk),
        disk.contains_key(path),
        disk[path] is Dir,
        i <= disk[path].kids().len(),
    ensures
        ({
            let queries = remote::child_queries(
                path,
                disk[path].names().skip(i as int),
                scope.excludes,
            );
            &&& all_queries_fit(disk, queries)
            &&& left_to_count(scope, disk, queries) == to_count_from(scope, path, disk[path], i)
        }),
    decreases disk[path].kids().len() - i,
{
    let tree = disk[path];
    let ns = tree.names().skip(i as int);
    if i < tree.kids().len() {
        lemma_child_queries(scope, disk, path, i + 1);
        assert(ns.skip(1) =~= tree.names().skip(i as int + 1));
        assert(disk[path].kids()[i as int] == tree.kids()[i as int]);
        let rest = remote::child_queries(path, ns.skip(1), scope.excludes);
        let queries = remote::child_queries(path, ns, scope.excludes);
        if !scope.excludes.contains(ns[0]) {
            assert(queries.drop_last() =~= rest);
            assert(query_fits(disk, queries.last()));
            assert forall|j: int| 0 <= j < queries.len() implies query_fits(
                disk,
                #[trigger] queries[j],
            ) by {
                if j < rest.len() {
                    assert(queries[j] == rest[j]);
                }
            }
        }
    } else {
        assert(ns.len() == 0);
    }
}

proof fn lemma_true_answer(scope: Scope, disk: Map<Seq<char>, Tree>, s: Search, a: Answer)
    requires
        device_disk(disk),
        all_queries_fit(disk, s.pending),
        s.pending.len() > 0,
        is_true(disk, s.pending.last(), a),
    ensures
        ({
            let t = remote::search_on(scope, s, a);
            &&& all_queries_fit(disk, t.pending)
            &&& with_files(t.found, left_to_count(scope, disk, t.pending)) == with_files(
                s.found,
                left_to_count(scope, disk, s.pending),
            )
        }),
{
    let t = remote::search_on(scope, s, a);
    let rest = s.pending.drop_last();
    let q = s.pending.last();
    let left = left_to_count(scope, disk, rest);
    assert(query_fits(disk, s.pending[s.pending.len() - 1]));
    assert forall|i: int| 0 <= i < rest.len() implies query_fits(disk, #[trigger] rest[i]) by {
        assert(rest[i] == s.pending[i]);
    }
    assert(Seq::<FileView>::empty() + left =~= left);
    match (q, a) {
        (QueryView::List { path }, Answer::Listed(Ok(names))) => {
            let more = remote::child_queries(path, names, scope.excludes);
            assert(names.skip(0) =~= names);
            lemma_child_queries(scope, disk, path, 0);
            lemma_count_concat(scope, disk, rest, more);
            assert forall|i: int| 0 <= i < t.pending.len() implies query_fits(
                disk,
                #[trigger] t.pending[i],
            ) by {
                if i < rest.len() {
                    assert(t.pending[i] == rest[i]);
                } else {
                    assert(t.pending[i] == more[i - rest.len()]);
                }
            }
        },
        (QueryView::Stat { path, name }, Answer::Stated(Ok(stat))) => {
            if stat.is_dir {
                assert(t.pending.drop_last() =~= rest);
                assert forall|i: int| 0 <= i < t.pending.len() implies query_fits(
                    disk,
                    #[trigger] t.pending[i],
                ) by {
                    if i < rest.len() {
                        assert(t.pending[i] == rest[i]);
                    }
                }
            } else {
                let f = FileView {
                    path: remote::below(scope.root, path, name),
                    size: stat.size,
                };
                assert(stat.size == disk[path].data().len() as u64);
                assert((seq![f] + left).skip(1) =~= left);
            }
        },
        _ => {},
    }
}

proof fn lemma_searches_truly(
    scope: Scope,
    disk: Map<Seq<char>, Tree>,
    pre: SessionView,
    k: nat,
    post: SessionView,
    s: Search,
)
    requires
        device_disk(disk),
        disk.contains_key(scope.root),
        disk[scope.root] is Dir,
        searches_truly(scope, disk, pre, k, post, s),
    ensures
        all_queries_fit(disk, s.pending),
        with_files(s.found, left_to_count(scope, disk, s.pending)) == with_files(
            Seq::empty(),
            to_count_from(scope, scope.root, disk[scope.root], 0),
        ),
    decreases k,
{
    if k == 0 {
        let all = to_count_from(scope, scope.root, disk[scope.root], 0);
        assert(s.pending.drop_last().len() == 0);
        assert(left_to_count(scope, disk, s.pending.drop_last()) == Seq::<FileView>::empty());
        assert(left_to_count(scope, disk, s.pending) =~= all);
    } else {
        let (m, t, a) = choose|m: SessionView, t: Search, a: Answer|
            searches_truly(scope, disk, pre, (k - 1) as nat, m, t)
                && #[trigger] remote::searches_on(scope, m, t, a, post, s) && is_true(
                disk,
                t.pending.last(),
                a,
            );
        lemma_searches_truly(scope, disk, pre, (k - 1) as nat, m, t);
        lemma_true_answer(scope, disk, t, a);
    }
}

proof fn lemma_with_files(s: Seq<FileView>, more: Seq<FileView>)
    requires
        files::no_twins(s),
    ensures
        files::no_twins(with_files(s, more)),
    decreases more.len(),
{
    if more.len() > 0 {
        files::lemma_with_file(s, more[0].path, more[0].size);
        lemma_with_files(files::with_file(s, more[0].path, more[0].size), more.skip(1));
    }
}

/// When the search of a device is finished, it has found exactly the files that
/// count and are reached over names none of which is excluded, in order, with their
/// sizes, and each path once.
pub proof fn law_search_finds_every_file(
    scope: Scope,
    disk: Map<Seq<char>, Tree>,
    pre: SessionView,
    k: nat,
    post: SessionView,
    s: Search,
)
    requires
        device_disk(disk),
        disk.contains_key(scope.root),
        disk[scope.root] is Dir,
        searches_truly(scope, disk, pre, k, post, s),
        s.pending.len() == 0,
    ensures
        s.found == with_files(
            Seq::empty(),
            to_count_from(scope, scope.root, disk[scope.root], 0),
        ),
        files::no_twins(s.found),
{
    lemma_searches_truly(scope, disk, pre, k, post, s);
    lemma_with_files(Seq::empty(), to_count_from(scope, scope.root, disk[scope.root], 0));
}

} // verus!
