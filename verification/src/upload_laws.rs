//! What the upload of a directory does to the files of a device: it leaves there every
//! file that it sent, with its content, and touches no other file.

use vstd::prelude::*;

use crate::error::ErrorView;
use crate::mirror_laws;
use crate::session::SessionView;
use crate::step_laws;
use crate::tree_laws;
use crate::tree_laws::Rules;
use crate::tree_laws::Sent;
use crate::tree_laws::Tree;
use crate::walk;
use crate::walk::PutActionView;
use crate::walk::PutItemView;
use crate::walk::PutState;

verus! {

/// What happened on a device: a directory was to be created, or scripts ran without error
/// output.
pub enum Event {
    Made { dir: Seq<char> },
    Ran { all: Seq<Seq<char>> },
}

/// An event took a session from one moment to another.
pub open spec fn took_place(pre: SessionView, e: Event, post: SessionView) -> bool {
    match e {
        Event::Made { dir } => mirror_laws::tried_to_make(pre, dir, post),
        Event::Ran { all } => mirror_laws::ran(pre, all, post),
    }
}

/// Events took a session from one moment to another, one after the other.
pub open spec fn all_took_place(pre: SessionView, events: Seq<Event>, post: SessionView) -> bool
    decreases events.len(),
{
    if events.len() == 0 {
        post == pre
    } else {
        exists|m: SessionView|
            all_took_place(pre, events.drop_last(), m) && #[trigger] took_place(
                m,
                events.last(),
                post,
            )
    }
}

/// The files of a device after events. Creating a directory touches no file.
pub open spec fn after_events(f: Map<Seq<char>, Seq<u8>>, events: Seq<Event>) -> Option<
    Map<Seq<char>, Seq<u8>>,
>
    decreases events.len(),
{
    if events.len() == 0 {
        Some(f)
    } else {
        match after_events(f, events.drop_last()) {
            Some(g) => match events.last() {
                Event::Made { dir } => Some(g),
                Event::Ran { all } => mirror_laws::effect(g, all),
            },
            None => None,
        }
    }
}

/// The files of a device with those that were sent, each at its path with its content.
pub open spec fn with_all(f: Map<Seq<char>, Seq<u8>>, sent: Seq<Sent>) -> Map<Seq<char>, Seq<u8>>
    decreases sent.len(),
{
    if sent.len() == 0 {
        f
    } else {
        with_all(f, sent.drop_last()).insert(sent.last().remote, sent.last().data)
    }
}

/// Whether events add the files that were sent to those of a device, whatever it holds.
pub open spec fn leave_all(events: Seq<Event>, sent: Seq<Sent>) -> bool {
    forall|f: Map<Seq<char>, Seq<u8>>| #[trigger]
        after_events(f, events) == Some(with_all(f, sent))
}

proof fn lemma_one_event_more(
    pre: SessionView,
    events: Seq<Event>,
    m: SessionView,
    e: Event,
    post: SessionView,
)
    requires
        all_took_place(pre, events, m),
        took_place(m, e, post),
    ensures
        all_took_place(pre, events.push(e), post),
{
    assert(events.push(e).drop_last() =~= events);
    assert(events.push(e).last() == e);
}

proof fn lemma_made(events: Seq<Event>, sent: Seq<Sent>, dir: Seq<char>)
    requires
        leave_all(events, sent),
    ensures
        leave_all(events.push(Event::Made { dir }), sent),
{
    let more = events.push(Event::Made { dir });
    assert(more.drop_last() =~= events);
    assert(more.last() == Event::Made { dir });
    assert forall|f: Map<Seq<char>, Seq<u8>>| #[trigger] after_events(f, more) == Some(
        with_all(f, sent),
    ) by {
        assert(after_events(f, events) == Some(with_all(f, sent)));
    }
}

proof fn lemma_wrote(events: Seq<Event>, sent: Seq<Sent>, all: Seq<Seq<char>>, x: Sent)
    requires
        leave_all(events, sent),
        mirror_laws::makes(all, x.remote, Some(x.data)),
    ensures
        leave_all(events.push(Event::Ran { all }), sent.push(x)),
{
    let more = events.push(Event::Ran { all });
    let also = sent.push(x);
    assert(more.drop_last() =~= events);
    assert(more.last() == Event::Ran { all });
    assert(also.drop_last() =~= sent);
    assert(also.last() == x);
    assert forall|f: Map<Seq<char>, Seq<u8>>| #[trigger] after_events(f, more) == Some(
        with_all(f, also),
    ) by {
        let g = with_all(f, sent);
        assert(after_events(f, events) == Some(g));
        assert(mirror_laws::effect(g, all) == Some(g.insert(x.remote, x.data)));
    }
}

/// Whether there are events that took a session from one moment to another and leave the
/// files that were sent.
pub open spec fn has_left(pre: SessionView, post: SessionView, sent: Seq<Sent>) -> bool {
    exists|events: Seq<Event>| #[trigger]
        all_took_place(pre, events, post) && leave_all(events, sent)
}

proof fn lemma_goes_on(
    rules: Rules,
    disk: Map<Seq<char>, Tree>,
    first: SessionView,
    pre: SessionView,
    s: PutState,
    sent: Seq<Sent>,
    post: SessionView,
    t: PutState,
    more: Seq<Sent>,
)
    requires
        has_left(first, pre, sent),
        tree_laws::put_goes_on(rules, disk, pre, s, sent, post, t, more),
    ensures
        has_left(first, post, more),
{
    let events = choose|events: Seq<Event>| #[trigger]
        all_took_place(first, events, pre) && leave_all(events, sent);
    let (m, u, a) = choose|m: SessionView, u: PutState, a: PutActionView| #[trigger]
        walk::put_steps(pre, s, m, u, a) && match a {
            PutActionView::ListDir { rel } => {
                &&& post == m
                &&& t == walk::put_listed(u, disk[rel].entries(), rules.excludes, rules.paths)
                &&& more == sent
            },
            PutActionView::ReadFile { rel } => {
                &&& walk::put_writes(m, u, disk[rel].data(), post, t, Ok::<(), ErrorView>(()))
                &&& more == tree_laws::with_sent(sent, u, disk[rel].data())
            },
            PutActionView::Finished { count } => post == m && t == u && more == sent,
        };
    step_laws::law_upload_step(pre, s, m, u, a);
    if s.pending.len() > 0 && s.pending.last() is Dir {
        let dir = s.pending.last()->Dir_remote;
        let e = Event::Made { dir };
        lemma_one_event_more(first, events, pre, e, m);
        lemma_made(events, sent, dir);
        assert(has_left(first, post, more));
    } else if s.pending.len() > 0 && s.pending.last() is File {
        let rel = s.pending.last()->File_rel;
        let remote = s.pending.last()->File_remote;
        let data = disk[rel].data();
        let x = Sent { rel, remote, data };
        step_laws::law_upload_writes_the_file(m, u, data, post, t, Ok(()));
        let all = choose|all: Seq<Seq<char>>| #[trigger]
            mirror_laws::ran(m, all, post) && mirror_laws::makes(all, remote, Some(data));
        let e = Event::Ran { all };
        lemma_one_event_more(first, events, m, e, post);
        lemma_wrote(events, sent, all, x);
        assert(more == sent.push(x));
        assert(has_left(first, post, more));
    }
}

proof fn lemma_uploads_leave(
    rules: Rules,
    disk: Map<Seq<char>, Tree>,
    start: PutState,
    pre: SessionView,
    k: nat,
    post: SessionView,
    s: PutState,
    sent: Seq<Sent>,
)
    requires
        tree_laws::uploads(rules, disk, start, pre, k, post, s, sent),
    ensures
        has_left(pre, post, sent),
    decreases k,
{
    if k == 0 {
        let none = Seq::<Event>::empty();
        assert(all_took_place(pre, none, post));
        assert(leave_all(none, sent)) by {
            assert forall|f: Map<Seq<char>, Seq<u8>>| #[trigger] after_events(f, none) == Some(
                with_all(f, sent),
            ) by {}
        }
    } else {
        let (m, t, before) = choose|m: SessionView, t: PutState, before: Seq<Sent>|
            tree_laws::uploads(rules, disk, start, pre, (k - 1) as nat, m, t, before)
                && #[trigger] tree_laws::put_goes_on(
                rules,
                disk,
                m,
                t,
                before,
                post,
                s,
                sent,
            );
        lemma_uploads_leave(rules, disk, start, pre, (k - 1) as nat, m, t, before);
        lemma_goes_on(rules, disk, pre, m, t, before, post, s, sent);
    }
}

/// The upload of a directory that is finished leaves on the device every file that counts
/// and is reached over names none of which is excluded, at its path and with its content,
/// and touches no other file: all that happened there are attempts to create directories,
/// and scripts that write these files.
pub proof fn law_upload_leaves_every_file(
    rules: Rules,
    disk: Map<Seq<char>, Tree>,
    rel: Seq<char>,
    remote: Seq<char>,
    pre: SessionView,
    k: nat,
    post: SessionView,
    s: PutState,
    sent: Seq<Sent>,
)
    requires
        tree_laws::local_disk(disk),
        disk.contains_key(rel),
        disk[rel] is Dir,
        tree_laws::uploads(
            rules,
            disk,
            PutState { pending: seq![PutItemView::Dir { rel, remote }], count: 0 },
            pre,
            k,
            post,
            s,
            sent,
        ),
        s.pending.len() == 0,
    ensures
        has_left(pre, post, tree_laws::to_send(rules, rel, remote, disk[rel])),
{
    let start = PutState { pending: seq![PutItemView::Dir { rel, remote }], count: 0 };
    tree_laws::law_upload_sends_every_file(rules, disk, rel, remote, pre, k, post, s, sent);
    lemma_uploads_leave(rules, disk, start, pre, k, post, s, sent);
}

} // verus!
