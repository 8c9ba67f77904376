//! How directories and their contents are mounted.

use vstd::prelude::*;

use crate::bytes::{joined, lossy_text};
use crate::laws::conversation::{lemma_replies_stay, lemma_then, lemma_weaken, proceeds};
use crate::laws::mounting::{
    confined, confined_steps_stay_confined, dir_stays_confined, lemma_decision,
    lemma_finished_last, ready, Places,
};
use crate::laws::reading::{decisions_only_read, is_host_error, queries};
use crate::laws::tree::{lemma_within_joined, plain_replies, plain_reply, within};
use crate::mount::{
    dir_decided, dir_filled, dir_listed, dir_looked_at, dir_prepared, dir_walked, fill,
    finish_steps, leaving, leftover, lemma_fill_on, lemma_fill_step, lemma_walk_on, lemma_walk_step,
    mounted, prepare_steps, tmpfs_decision, visited, walk, weigh, weighed, with_skipped, without,
};
use crate::node::{lemma_position, needs_tmpfs, probe_of, NodeFileType, NodeView};
use crate::protocol::{
    ask, done, flag_of, listing_of, noted, still_to_come, Entry, Io, Outcome, ReplyView, Request,
    Run, Task, Text,
};
use crate::script::{consequence, mirror_steps, perform, perform_reply, Step};

verus! {

/// A directory that has to be built anew is complete before it takes the place of the device's:
/// up to there nothing is mounted over the device at all. If it cannot be completed, the device's
/// directory stays as it is.
pub proof fn new_directories_appear_when_complete(
    places: Places,
    parent: Text,
    parent_work: Text,
    node: NodeView,
    io: Io,
)
    requires
        ready(places, node, false),
        node.file_type == NodeFileType::Directory,
        within(places.device, parent),
        within(places.work, parent_work),
        plain_replies(io),
        tmpfs_decision(joined(parent, node.name), node, false, io).out matches Outcome::Done(
            decision,
        ) && decision.0,
    ensures
        ({
            let path = joined(parent, node.name);
            let work = joined(parent_work, node.name);
            let whole = mounted(parent, parent_work, node, false, io);
            let limits = confined(Places { sealed: true, ..places });
            ||| proceeds(io, whole, limits) && !(whole.out is Done)
            ||| exists|complete: Io| #[trigger]
                proceeds(io, done(complete, ()), limits) && whole == perform(
                    finish_steps(path, work, true),
                    complete,
                )
        }),
{
    reveal(mounted);
    let path = joined(parent, node.name);
    let work = joined(parent_work, node.name);
    let whole = mounted(parent, parent_work, node, false, io);
    let shut = Places { sealed: true, ..places };
    let limits = confined(shut);
    let decision = tmpfs_decision(path, node, false, io);
    let decided = decision.out->Done_0.1;
    let steps = prepare_steps(path, work, decided.origin, true, true);
    let prepared = perform(steps, decision.io);
    let inner = dir_prepared(path, work, decided, false, true, prepared);
    lemma_within_joined(places.device, parent, node.name);
    lemma_within_joined(places.work, parent_work, node.name);
    lemma_decision(places, path, node, false, io);
    decisions_only_read(path, node, false, io);
    lemma_weaken(io, decision, queries(), limits);
    lemma_replies_stay(io, decision, limits, |r: ReplyView| plain_reply(r));
    confined_steps_stay_confined(shut, steps, decision.io);
    dir_stays_confined(shut, path, work, decided, true, prepared, decision.io);
    lemma_then(io, decision, inner, limits);
    lemma_finished_last(path, work, decided, true, true, prepared);
    assert(whole == dir_decided(path, work, false, decision));
    assert(whole == dir_filled(path, work, true, inner));
    match inner.out {
        Outcome::Done(u) => {
            assert(inner == done(inner.io, ()));
            assert(proceeds(io, done(inner.io, ()), limits));
        },
        _ => {},
    }
}

/// Where a directory is not built anew, a child that cannot be mounted is passed over: dealing
/// with the device's entries does not fail.
pub proof fn walking_passes_over_errors(
    path: Text,
    work: Text,
    children: Seq<NodeView>,
    entries: Seq<Entry<Text>>,
    i: int,
    io: Io,
)
    ensures
        !(walk(path, work, children, entries, i, false, io).out is Fail),
    decreases still_to_come(entries, i),
{
    if i < 0 || i >= entries.len() {
        reveal(walk);
    } else {
        let left = without(children, lossy_text(entries[i].name));
        let run = visited(path, work, children, entries[i], false, io);
        lemma_walk_step(path, work, children, entries, i, false, io);
        lemma_walk_on(path, work, left, entries, i + 1, false, run);
        walking_passes_over_errors(path, work, left, entries, i + 1, run.io);
    }
}

/// Where a directory is not built anew, a child that cannot be mounted is passed over: mounting
/// the other children does not fail.
pub proof fn filling_passes_over_errors(path: Text, work: Text, children: Seq<NodeView>, io: Io)
    ensures
        !(fill(path, work, children, false, io).out is Fail),
    decreases children.len(),
{
    if children.len() == 0 {
        reveal(fill);
    } else {
        let run = noted(
            Task::MagicMount { path, name: children[0].name },
            if children[0].skip {
                done(io, ())
            } else {
                mounted(path, work, children[0], false, io)
            },
        );
        lemma_fill_step(path, work, children, false, io);
        lemma_fill_on(path, work, children.drop_first(), false, run);
        filling_passes_over_errors(path, work, children.drop_first(), run.io);
    }
}

/// Where a directory is built anew, the first child that cannot be mounted ends everything, and
/// the error names it.
pub proof fn filling_stops_at_an_error(path: Text, work: Text, children: Seq<NodeView>, io: Io)
    requires
        children.len() > 0,
        !children[0].skip,
        mounted(path, work, children[0], true, io).out is Fail,
    ensures
        fill(path, work, children, true, io) == noted(
            Task::MagicMount { path, name: children[0].name },
            mounted(path, work, children[0], true, io),
        ),
{
    let run = noted(
        Task::MagicMount { path, name: children[0].name },
        mounted(path, work, children[0], true, io),
    );
    lemma_fill_step(path, work, children, true, io);
    lemma_fill_on(path, work, children.drop_first(), true, run);
}

/// A node whose children may have been marked to be left out.
pub open spec fn same_but_skips(old_node: NodeView, new_node: NodeView) -> bool {
    &&& new_node == NodeView { children: new_node.children, ..old_node }
    &&& new_node.children.len() == old_node.children.len()
    &&& forall|i: int|
        0 <= i < old_node.children.len() ==> #[trigger] new_node.children[i] == (NodeView {
            skip: new_node.children[i].skip,
            ..old_node.children[i]
        })
    &&& forall|i: int|
        0 <= i < old_node.children.len() && old_node.children[i].skip ==> (
        #[trigger] new_node.children[i]).skip
}

/// A directory of the device gets marks only.
proof fn lemma_weigh_device(path: Text, node: NodeView, i: int, io: Io)
    requires
        node.origin is None,
    ensures
        !(weigh(path, node, i, io).out is Fail),
        weigh(path, node, i, io).out matches Outcome::Done((create, decided)) ==> !create
            && same_but_skips(node, decided),
    decreases node.children.len() - i,
{
    if 0 <= i < node.children.len() {
        let child = node.children[i];
        let skipped = with_skipped(node, i);
        assert(same_but_skips(node, skipped));
        match probe_of(child.file_type, joined(path, child.name)) {
            None => {
                lemma_weigh_device(path, skipped, i + 1, io);
                assert(weigh(path, node, i, io) == weighed(path, node, i, true, io));
                lemma_same_but_skips(node, skipped, weigh(path, skipped, i + 1, io));
            },
            Some(request) => {
                let run = ask(io, request);
                lemma_weigh_device(path, skipped, i + 1, run.io);
                lemma_weigh_device(path, node, i + 1, run.io);
                lemma_same_but_skips(node, skipped, weigh(path, skipped, i + 1, run.io));
                match run.out {
                    Outcome::Done(reply) => {
                        let needed = needs_tmpfs(child.file_type, reply);
                        assert(weigh(path, node, i, io) == weighed(
                            path,
                            node,
                            i,
                            needed,
                            run.io,
                        ));
                    },
                    _ => {},
                }
            },
        }
    }
}

/// Marks upon marks are marks.
proof fn lemma_same_but_skips(a: NodeView, b: NodeView, run: Run<(bool, NodeView)>)
    requires
        same_but_skips(a, b),
        run.out matches Outcome::Done(decision) ==> same_but_skips(b, decision.1),
    ensures
        run.out matches Outcome::Done(decision) ==> same_but_skips(a, decision.1),
{
    match run.out {
        Outcome::Done(decision) => {
            let c = decision.1;
            assert forall|i: int| 0 <= i < a.children.len() implies #[trigger] c.children[i] == (
            NodeView { skip: c.children[i].skip, ..a.children[i] }) by {
                assert(b.children[i] == (NodeView { skip: b.children[i].skip, ..a.children[i] }));
            }
            assert forall|i: int| 0 <= i < a.children.len() && a.children[i].skip implies (
            #[trigger] c.children[i]).skip by {
                assert(b.children[i].skip);
            }
        },
        _ => {},
    }
}

/// A directory that no module provides is never built anew. Children that could be mounted only
/// there are marked to be left out, and nothing else is changed.
pub proof fn device_directories_are_not_built_anew(
    path: Text,
    node: NodeView,
    has_tmpfs: bool,
    io: Io,
)
    requires
        node.origin is None,
    ensures
        !(tmpfs_decision(path, node, has_tmpfs, io).out is Fail),
        tmpfs_decision(path, node, has_tmpfs, io).out matches Outcome::Done((create, decided)) ==> {
            &&& !create
            &&& same_but_skips(node, decided)
        },
{
    lemma_weigh_device(path, node, 0, io);
}

/// Mounting what modules have for a directory of the device fails only where that directory
/// cannot be listed.
pub proof fn device_directories_fail_only_unlisted(
    parent: Text,
    parent_work: Text,
    node: NodeView,
    io: Io,
)
    requires
        node.origin is None,
        node.file_type == NodeFileType::Directory,
        !node.replace,
    ensures
        ({
            let whole = mounted(parent, parent_work, node, false, io);
            whole.out matches Outcome::Fail(e) ==> {
                &&& is_host_error(e)
                &&& whole.io.asked.len() > 0
                &&& whole.io.asked.last() == Request::ListDir(joined(parent, node.name))
            }
        }),
{
    reveal(mounted);
    let path = joined(parent, node.name);
    let work = joined(parent_work, node.name);
    let whole = mounted(parent, parent_work, node, false, io);
    let decision = tmpfs_decision(path, node, false, io);
    device_directories_are_not_built_anew(path, node, false, io);
    assert(whole == dir_decided(path, work, false, decision));
    match decision.out {
        Outcome::Done((create, decided)) => {
            let prepared: Run<()> = done(decision.io, ());
            assert(perform(prepare_steps(path, work, decided.origin, false, false), decision.io)
                == prepared);
            assert(whole == dir_prepared(path, work, decided, false, false, prepared));
            let look = ask(decision.io, Request::Exists(path));
            assert(whole == dir_looked_at(path, work, decided, false, false, look));
            match look.out {
                Outcome::Done(reply) => {
                    if flag_of(reply) {
                        let listed = ask(look.io, Request::ListDir(path));
                        assert(whole == dir_listed(path, work, decided, false, false, listed));
                        match listed.out {
                            Outcome::Done(listing) => match listing_of(listing) {
                                Ok(entries) => {
                                    let walked = walk(
                                        path,
                                        work,
                                        decided.children,
                                        entries,
                                        0,
                                        false,
                                        listed.io,
                                    );
                                    let left = leftover(decided.children, entries, 0);
                                    walking_passes_over_errors(
                                        path,
                                        work,
                                        decided.children,
                                        entries,
                                        0,
                                        listed.io,
                                    );
                                    assert(whole == dir_walked(
                                        path,
                                        work,
                                        false,
                                        false,
                                        false,
                                        leaving(walked, left),
                                    )) by {
                                        reveal(walk);
                                    }
                                    if walked.out is Done {
                                        lemma_walked_device(path, work, left, walked.io);
                                    }
                                },
                                Err(_) => {},
                            },
                            _ => {},
                        }
                    } else {
                        lemma_walked_device(path, work, decided.children, look.io);
                    }
                },
                _ => {},
            }
        },
        _ => {},
    }
}

/// Mounting the children that are left in a directory of the device does not fail.
proof fn lemma_walked_device(path: Text, work: Text, left: Seq<NodeView>, io: Io)
    ensures
        !(dir_walked(path, work, false, false, false, done(io, left)).out is Fail),
{
    let filled = fill(path, work, left, false, io);
    filling_passes_over_errors(path, work, left, io);
    assert(dir_walked(path, work, false, false, false, done(io, left)) == dir_filled(
        path,
        work,
        false,
        filled,
    )) by {
        reveal(fill);
    }
}

/// What the device has in a directory that a module replaces makes no difference.
pub proof fn replaced_directories_are_not_looked_into(
    path: Text,
    work: Text,
    node: NodeView,
    create: bool,
    has_tmpfs: bool,
    reply: ReplyView,
    other: ReplyView,
    io: Io,
)
    requires
        node.replace,
    ensures
        dir_looked_at(path, work, node, create, has_tmpfs, done(io, reply)) == dir_looked_at(
            path,
            work,
            node,
            create,
            has_tmpfs,
            done(io, other),
        ),
{
}

/// A whiteout hides the device's file by not being mounted: nothing is asked.
pub proof fn whiteouts_ask_nothing(
    parent: Text,
    parent_work: Text,
    node: NodeView,
    has_tmpfs: bool,
    io: Io,
)
    requires
        node.file_type == NodeFileType::Whiteout,
    ensures
        mounted(parent, parent_work, node, has_tmpfs, io) == done(io, ()),
{
    reveal(mounted);
}

/// An entry of the device that no module has a file for is mirrored where the directory is built
/// anew, and is left alone elsewhere.
pub proof fn other_entries_are_kept(
    path: Text,
    work: Text,
    children: Seq<NodeView>,
    entry: Entry<Text>,
    has_tmpfs: bool,
    io: Io,
)
    requires
        forall|i: int|
            0 <= i < children.len() ==> (#[trigger] children[i]).name != lossy_text(entry.name),
    ensures
        visited(path, work, children, entry, has_tmpfs, io) == (if has_tmpfs {
            noted(
                Task::MountMirror { path, name: lossy_text(entry.name) },
                perform(mirror_steps(path, work, entry), io),
            )
        } else {
            done(io, ())
        }),
{
    reveal(visited);
    lemma_position(children, lossy_text(entry.name));
}

/// Steps behind others are performed when those have succeeded, and not at all otherwise.
pub proof fn steps_follow_each_other(first: Seq<Step<Text>>, second: Seq<Step<Text>>, io: Io)
    ensures
        perform(first + second, io) == (match perform(first, io).out {
            Outcome::Done(_) => perform(second, perform(first, io).io),
            _ => perform(first, io),
        }),
    decreases io.rest.len(),
{
    if first.len() == 0 {
        assert(first + second =~= second);
    } else {
        let all = first + second;
        let rest = first.drop_first();
        assert(all[0] == first[0]);
        assert(all.drop_first() =~= rest + second);
        match first[0] {
            Step::Ask(request, purpose) => {
                let run = ask(io, request);
                match run.out {
                    Outcome::Done(reply) => {
                        assert(perform(all, io) == perform_reply(
                            purpose,
                            rest + second,
                            reply,
                            run.io,
                        ));
                        assert(perform(first, io) == perform_reply(purpose, rest, reply, run.io));
                        match consequence(purpose, reply) {
                            Ok(more) => {
                                assert(more + (rest + second) =~= (more + rest) + second);
                                steps_follow_each_other(more + rest, second, run.io);
                            },
                            Err(_) => {},
                        }
                    },
                    _ => {},
                }
            },
            Step::Abort(_) => {},
        }
    }
}

} // verus!
