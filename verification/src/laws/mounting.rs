//! What mounting a tree does to the device.

use vstd::prelude::*;

use crate::bytes::{joined, lossy_text};
use crate::laws::conversation::{
    lemma_end, lemma_recast, lemma_replies_stay, lemma_then, lemma_weaken, proceeds, Limits,
};
use crate::laws::reading::{
    decisions_only_read, is_host_error, is_query, lemma_asked, queries,
};
use crate::laws::tree::{
    from_below, lemma_plain_ask, lemma_plain_listing, lemma_within_joined, plain_entry,
    plain_replies, plain_reply, sound, within,
};
use crate::mount::{
    dir_decided, dir_filled, dir_listed, dir_looked_at, dir_prepared, dir_walked, file_steps, fill,
    finish_steps, handled, leaving, leftover, lemma_decision_size, lemma_fill_on, lemma_fill_step,
    lemma_leftover_size, lemma_sizes_remove, lemma_walk_on, lemma_walk_step, lemma_without_size,
    mounted, prepare_steps, size, sizes, symlink_steps, tmpfs_decision, visited, walk, weigh,
    weighed, with_skipped, without,
};
use crate::node::{lemma_position, needs_tmpfs, position, probe_of, NodeFileType, NodeView};
use crate::protocol::{
    ask, done, done_of, flag_of, in_task, listing_of, noted, still_to_come, Entry, Error, Io,
    Outcome, ReplyView, Request, Run, Task, Text,
};
use crate::script::{
    consequence, mirror_all, mirror_steps, perform, perform_reply, Purpose, Step,
};

verus! {

/// The places that mounting has to do with: the modules' directory, the part of the device that
/// the tree is mounted over, and the part of the memory file system that is used for it. Where
/// the device is sealed, nothing is mounted over it.
pub struct Places {
    pub modules: Text,
    pub device: Text,
    pub work: Text,
    pub sealed: bool,
}

/// A request that stays within its places. Files and directories are created and changed on the
/// memory file system only. What is mounted comes from one of the places, and is mounted on the
/// memory file system or, unless that is sealed, over the device. Only the memory file system is
/// moved over the device.
pub open spec fn is_confined(places: Places, request: Request<Text>) -> bool {
    let ours = |p: Text| within(places.work, p);
    let devices = |p: Text| within(places.device, p);
    match request {
        Request::CreateFile(p) => ours(p),
        Request::CreateDir(p) => ours(p),
        Request::CreateDirAll(p) => ours(p),
        Request::MakeSymlink { target: _, link } => ours(link),
        Request::SetMode { path, mode: _ } => ours(path),
        Request::SetOwner { path, uid: _, gid: _ } => ours(path),
        Request::SetLabel { path, label: _ } => ours(path),
        Request::BindMount { source, target } => {
            &&& within(places.modules, source) || devices(source) || ours(source)
            &&& (!places.sealed && devices(target)) || ours(target)
        },
        Request::MoveMount { source, target } => !places.sealed && ours(source) && devices(target),
        Request::MakePrivate(p) => !places.sealed && devices(p),
        _ => is_query(request),
    }
}

/// All requests stay within their places, and all errors are the host's.
pub open spec fn confined(places: Places) -> Limits {
    Limits {
        allowed: |r: Request<Text>| is_confined(places, r),
        excused: |e: Error<Text>| is_host_error(e),
    }
}

/// A purpose that leads to nothing outside the places, nor to an error but the host's.
pub open spec fn purpose_confined(places: Places, purpose: Purpose<Text>) -> bool {
    match purpose {
        Purpose::Success => true,
        Purpose::Task(_) => true,
        Purpose::Attempt => true,
        Purpose::Attributes { source: _, target } => within(places.work, target),
        Purpose::Label { target } => within(places.work, target),
        Purpose::Link { source: _, target } => within(places.work, target),
        Purpose::Mirror { source, target } => within(places.device, source) && within(
            places.work,
            target,
        ),
        Purpose::Skeleton { path: _, work, origin } => within(places.work, work) && origin is Some,
    }
}

/// A step that leads to nothing outside the places, nor to an error but the host's.
pub open spec fn step_confined(places: Places, step: Step<Text>) -> bool {
    match step {
        Step::Ask(request, purpose) => is_confined(places, request) && purpose_confined(
            places,
            purpose,
        ),
        Step::Abort(e) => is_host_error(e),
    }
}

/// Steps that lead to nothing outside the places.
pub open spec fn steps_confined(places: Places, steps: Seq<Step<Text>>) -> bool {
    forall|i: int| 0 <= i < steps.len() ==> step_confined(places, #[trigger] steps[i])
}

/// Mirroring an entry stays within the places.
proof fn lemma_mirror_confined(places: Places, path: Text, work: Text, entry: Entry<Text>)
    requires
        within(places.device, path),
        within(places.work, work),
        plain_entry(entry),
    ensures
        steps_confined(places, mirror_steps(path, work, entry)),
{
    lemma_within_joined(places.device, path, entry.name);
    lemma_within_joined(places.work, work, entry.name);
}

/// Mirroring several entries stays within the places.
proof fn lemma_mirror_all_confined(
    places: Places,
    path: Text,
    work: Text,
    entries: Seq<Entry<Text>>,
)
    requires
        within(places.device, path),
        within(places.work, work),
        forall|j: int| 0 <= j < entries.len() ==> plain_entry(#[trigger] entries[j]),
    ensures
        steps_confined(places, mirror_all(path, work, entries)),
    decreases entries.len(),
{
    if entries.len() > 0 {
        let rest = entries.drop_first();
        assert forall|j: int| 0 <= j < rest.len() implies plain_entry(#[trigger] rest[j]) by {
            assert(plain_entry(entries[j + 1]));
        }
        lemma_mirror_confined(places, path, work, entries[0]);
        lemma_mirror_all_confined(places, path, work, rest);
    }
}

/// What a reply leads to stays within the places.
proof fn lemma_consequence_confined(places: Places, purpose: Purpose<Text>, reply: ReplyView)
    requires
        purpose_confined(places, purpose),
        plain_reply(reply),
    ensures
        match consequence(purpose, reply) {
            Ok(more) => steps_confined(places, more),
            Err(e) => is_host_error(e),
        },
{
    lemma_plain_listing(reply);
    match purpose {
        Purpose::Mirror { source, target } => match listing_of(reply) {
            Ok(entries) => {
                lemma_mirror_all_confined(places, source, target, entries);
            },
            Err(_) => {},
        },
        Purpose::Task(task) => match done_of(reply) {
            Ok(_) => {},
            Err(e) => {
                assert(is_host_error(e));
                assert(is_host_error(in_task(task, e)));
            },
        },
        _ => {},
    }
}

/// A computation stays within the places as part of a task.
pub proof fn lemma_noted<T>(places: Places, task: Task<Text>, io: Io, run: Run<T>)
    requires
        proceeds(io, run, confined(places)),
    ensures
        proceeds(io, noted(task, run), confined(places)),
{
    reveal(proceeds);
    match run.out {
        Outcome::Fail(e) => {
            assert((confined(places).excused)(e));
            assert(is_host_error(in_task(task, e)));
        },
        _ => {},
    }
}

/// Steps that stay within their places do so with all that the replies lead to.
pub proof fn confined_steps_stay_confined(places: Places, steps: Seq<Step<Text>>, io: Io)
    requires
        steps_confined(places, steps),
        plain_replies(io),
    ensures
        proceeds(io, perform(steps, io), confined(places)),
    decreases io.rest.len(),
{
    let limits = confined(places);
    if steps.len() == 0 {
        lemma_end(io, Outcome::Done(()), limits);
    } else {
        assert(step_confined(places, steps[0]));
        match steps[0] {
            Step::Abort(e) => {
                lemma_end(io, Outcome::<()>::Fail(e), limits);
            },
            Step::Ask(request, purpose) => {
                let run = ask(io, request);
                lemma_plain_ask(io, request);
                match run.out {
                    Outcome::Done(reply) => {
                        let rest = steps.drop_first();
                        lemma_consequence_confined(places, purpose, reply);
                        match consequence(purpose, reply) {
                            Ok(more) => {
                                let all = more + rest;
                                assert forall|i: int| 0 <= i < all.len() implies step_confined(
                                    places,
                                    #[trigger] all[i],
                                ) by {
                                    if i < more.len() {
                                        assert(step_confined(places, more[i]));
                                    } else {
                                        assert(step_confined(places, steps[i - more.len() + 1]));
                                    }
                                }
                                confined_steps_stay_confined(places, all, run.io);
                            },
                            Err(e) => {
                                lemma_end(run.io, Outcome::<()>::Fail(e), limits);
                            },
                        }
                        assert(perform(steps, io) == perform_reply(purpose, rest, reply, run.io));
                    },
                    _ => {},
                }
                lemma_asked(io, request, perform(steps, io), limits);
            },
        }
    }
}

/// A node that can be mounted without a gap: it is sound, its files come from below the modules'
/// directory, and where the directory around it is built anew a module provides it. Only there
/// the device can be sealed.
pub open spec fn ready(places: Places, node: NodeView, has_tmpfs: bool) -> bool {
    &&& places.sealed ==> has_tmpfs
    &&& sound(node)
    &&& from_below(places.modules, node)
    &&& has_tmpfs ==> node.origin is Some
}

/// Nodes that can be mounted without a gap.
pub open spec fn all_ready(places: Places, nodes: Seq<NodeView>, has_tmpfs: bool) -> bool {
    forall|i: int| 0 <= i < nodes.len() ==> ready(places, #[trigger] nodes[i], has_tmpfs)
}

/// Nodes stay ready when one of them is taken out.
pub proof fn lemma_without_ready(
    places: Places,
    nodes: Seq<NodeView>,
    name: Text,
    has_tmpfs: bool,
)
    requires
        all_ready(places, nodes, has_tmpfs),
    ensures
        all_ready(places, without(nodes, name), has_tmpfs),
{
    lemma_position(nodes, name);
    match position(nodes, name) {
        Some(k) => {
            let left = nodes.remove(k);
            assert forall|i: int| 0 <= i < left.len() implies ready(
                places,
                #[trigger] left[i],
                has_tmpfs,
            ) by {
                let j = if i < k { i } else { i + 1 };
                assert(left[i] == nodes[j]);
            }
        },
        None => {},
    }
}

/// Nodes stay ready when some of them are taken out.
pub proof fn lemma_leftover_ready(
    places: Places,
    nodes: Seq<NodeView>,
    entries: Seq<Entry<Text>>,
    i: int,
    has_tmpfs: bool,
)
    requires
        all_ready(places, nodes, has_tmpfs),
    ensures
        all_ready(places, leftover(nodes, entries, i), has_tmpfs),
    decreases entries.len() - i,
{
    if 0 <= i < entries.len() {
        let name = lossy_text(entries[i].name);
        lemma_without_ready(places, nodes, name, has_tmpfs);
        lemma_leftover_ready(places, without(nodes, name), entries, i + 1, has_tmpfs);
    }
}

/// A node stays ready when one of its children is marked to be left out.
proof fn lemma_skipped_ready(places: Places, node: NodeView, k: int, has_tmpfs: bool)
    requires
        ready(places, node, has_tmpfs),
        0 <= k < node.children.len(),
    ensures
        ready(places, with_skipped(node, k), has_tmpfs),
{
    let child = node.children[k];
    let marked = NodeView { skip: true, ..child };
    let new_node = with_skipped(node, k);
    assert(sound(child) && from_below(places.modules, child));
    assert(sound(marked));
    assert(from_below(places.modules, marked));
    assert forall|i: int, j: int| 0 <= i < j < new_node.children.len() implies (
    #[trigger] new_node.children[i]).name != (#[trigger] new_node.children[j]).name by {
        assert(node.children[i].name != node.children[j].name);
    }
    assert forall|i: int| 0 <= i < new_node.children.len() implies {
        &&& sound(#[trigger] new_node.children[i])
        &&& from_below(places.modules, new_node.children[i])
        &&& node.origin is Some ==> new_node.children[i].origin is Some
    } by {
        assert(sound(node.children[i]));
        assert(from_below(places.modules, node.children[i]));
    }
}

/// Holding the children against the device's files leaves the node ready.
proof fn lemma_weigh(places: Places, path: Text, node: NodeView, i: int, io: Io)
    requires
        ready(places, node, false),
    ensures
        weigh(path, node, i, io).out matches Outcome::Done((create, decided)) ==> {
            &&& ready(places, decided, create)
            &&& decided.name == node.name
        },
    decreases node.children.len() - i,
{
    if 0 <= i < node.children.len() {
        let child = node.children[i];
        let skipped = with_skipped(node, i);
        lemma_skipped_ready(places, node, i, false);
        match probe_of(child.file_type, joined(path, child.name)) {
            None => {
                lemma_weigh(places, path, skipped, i + 1, io);
                assert(weigh(path, node, i, io) == weighed(path, node, i, true, io));
            },
            Some(request) => {
                let run = ask(io, request);
                lemma_weigh(places, path, skipped, i + 1, run.io);
                lemma_weigh(places, path, node, i + 1, run.io);
                match run.out {
                    Outcome::Done(reply) => {
                        let needed = needs_tmpfs(child.file_type, reply);
                        assert(weigh(path, node, i, io) == weighed(
                            path,
                            node,
                            i,
                            needed,
                            run.io,
                        ));
                    },
                    _ => {},
                }
            },
        }
    }
}

/// A decision leaves a node ready to be mounted.
pub proof fn lemma_decision(
    places: Places,
    path: Text,
    node: NodeView,
    has_tmpfs: bool,
    io: Io,
)
    requires
        ready(places, node, has_tmpfs),
    ensures
        proceeds(io, tmpfs_decision(path, node, has_tmpfs, io), confined(places)),
        tmpfs_decision(path, node, has_tmpfs, io).out matches Outcome::Done((create, decided)) ==> {
            &&& ready(places, decided, has_tmpfs || create)
            &&& create ==> !has_tmpfs
            &&& decided.name == node.name
        },
{
    if !has_tmpfs {
        lemma_weigh(places, path, node, 0, io);
    }
    decisions_only_read(path, node, has_tmpfs, io);
    lemma_weaken(io, tmpfs_decision(path, node, has_tmpfs, io), queries(), confined(places));
}

/// Mounting a tree that was collected from modules stays within its places: no file of the device
/// is created, changed or removed. It never meets a node that no module provides, so that all
/// errors are the host's.
pub proof fn mounting_stays_confined(
    places: Places,
    parent: Text,
    parent_work: Text,
    node: NodeView,
    has_tmpfs: bool,
    io: Io,
)
    requires
        ready(places, node, has_tmpfs),
        within(places.device, parent),
        within(places.work, parent_work),
        plain_replies(io),
    ensures
        proceeds(io, mounted(parent, parent_work, node, has_tmpfs, io), confined(places)),
    decreases size(node), 9nat, 0nat,
{
    reveal(mounted);
    let limits = confined(places);
    let path = joined(parent, node.name);
    let work = joined(parent_work, node.name);
    let whole = mounted(parent, parent_work, node, has_tmpfs, io);
    lemma_within_joined(places.device, parent, node.name);
    lemma_within_joined(places.work, parent_work, node.name);
    match node.file_type {
        NodeFileType::RegularFile => {
            confined_steps_stay_confined(
                places,
                file_steps(path, work, node.origin, has_tmpfs),
                io,
            );
        },
        NodeFileType::Symlink => {
            confined_steps_stay_confined(places, symlink_steps(path, work, node.origin), io);
        },
        NodeFileType::Directory => {
            let decision = tmpfs_decision(path, node, has_tmpfs, io);
            lemma_decision_size(path, node, has_tmpfs, io);
            lemma_decision(places, path, node, has_tmpfs, io);
            assert(whole == dir_decided(path, work, has_tmpfs, decision));
            match decision.out {
                Outcome::Done((create, decided)) => {
                    lemma_replies_stay(io, decision, limits, |r: ReplyView| plain_reply(r));
                    decided_dir_stays_confined(
                        places,
                        path,
                        work,
                        decided,
                        create,
                        has_tmpfs,
                        decision.io,
                    );
                },
                _ => {},
            }
            lemma_then(io, decision, whole, limits);
        },
        NodeFileType::Whiteout => {
            lemma_end(io, Outcome::Done(()), limits);
        },
    }
}

/// A directory, once it is known whether it is built anew.
proof fn decided_dir_stays_confined(
    places: Places,
    path: Text,
    work: Text,
    node: NodeView,
    create: bool,
    has_tmpfs: bool,
    io: Io,
)
    requires
        ready(places, node, has_tmpfs || create),
        places.sealed ==> !create,
        within(places.device, path),
        within(places.work, work),
        plain_replies(io),
    ensures
        proceeds(
            io,
            dir_decided(path, work, has_tmpfs, done(io, (create, node))),
            confined(places),
        ),
    decreases size(node), 8nat, 0nat,
{
    let limits = confined(places);
    let has = has_tmpfs || create;
    let whole = dir_decided(path, work, has_tmpfs, done(io, (create, node)));
    let steps = prepare_steps(path, work, node.origin, create, has);
    let prepared = perform(steps, io);
    let inner = dir_prepared(path, work, node, false, has, prepared);
    confined_steps_stay_confined(places, steps, io);
    dir_stays_confined(places, path, work, node, has, prepared, io);
    lemma_finished_last(path, work, node, create, has, prepared);
    assert(whole == dir_filled(path, work, create, inner));
    match inner.out {
        Outcome::Done(_) => {
            lemma_replies_stay(io, inner, limits, |r: ReplyView| plain_reply(r));
            confined_steps_stay_confined(places, finish_steps(path, work, create), inner.io);
        },
        _ => {},
    }
    lemma_then(io, inner, whole, limits);
}

/// A directory is finished when everything is mounted in it: what comes before does not depend on
/// whether it is moved over the device's.
pub proof fn lemma_finished_last(
    path: Text,
    work: Text,
    node: NodeView,
    create: bool,
    has_tmpfs: bool,
    prepared: Run<()>,
)
    ensures
        dir_prepared(path, work, node, create, has_tmpfs, prepared) == dir_filled(
            path,
            work,
            create,
            dir_prepared(path, work, node, false, has_tmpfs, prepared),
        ),
{
    reveal(fill);
    reveal(walk);
    match prepared.out {
        Outcome::Done(_) => {
            let look = ask(prepared.io, Request::Exists(path));
            let with = dir_looked_at(path, work, node, create, has_tmpfs, look);
            let plain = dir_looked_at(path, work, node, false, has_tmpfs, look);
            assert(dir_prepared(path, work, node, create, has_tmpfs, prepared) == with);
            assert(dir_prepared(path, work, node, false, has_tmpfs, prepared) == plain);
            let root = node.replace && node.origin is None;
            match look.out {
                Outcome::Done(reply) => {
                    if flag_of(reply) && !node.replace {
                        let listed = ask(look.io, Request::ListDir(path));
                        assert(with == dir_listed(path, work, node, create, has_tmpfs, listed));
                        assert(plain == dir_listed(path, work, node, false, has_tmpfs, listed));
                        match listed.out {
                            Outcome::Done(listing) => match listing_of(listing) {
                                Ok(entries) => {
                                    let start = leaving(
                                        walk(
                                            path,
                                            work,
                                            node.children,
                                            entries,
                                            0,
                                            has_tmpfs,
                                            listed.io,
                                        ),
                                        leftover(node.children, entries, 0),
                                    );
                                    assert(with == dir_walked(
                                        path,
                                        work,
                                        root,
                                        create,
                                        has_tmpfs,
                                        start,
                                    ));
                                    assert(plain == dir_walked(
                                        path,
                                        work,
                                        root,
                                        false,
                                        has_tmpfs,
                                        start,
                                    ));
                                },
                                Err(_) => {},
                            },
                            _ => {},
                        }
                    } else {
                        let start: Run<Seq<NodeView>> = done(look.io, node.children);
                        assert(with == dir_walked(path, work, root, create, has_tmpfs, start));
                        assert(plain == dir_walked(path, work, root, false, has_tmpfs, start));
                    }
                },
                _ => {},
            }
        },
        _ => {},
    }
}

/// A directory that is ready to be filled, up to where everything is mounted in it.
pub proof fn dir_stays_confined(
    places: Places,
    path: Text,
    work: Text,
    node: NodeView,
    has_tmpfs: bool,
    prepared: Run<()>,
    io: Io,
)
    requires
        ready(places, node, has_tmpfs),
        within(places.device, path),
        within(places.work, work),
        plain_replies(io),
        proceeds(io, prepared, confined(places)),
    ensures
        proceeds(
            io,
            dir_prepared(path, work, node, false, has_tmpfs, prepared),
            confined(places),
        ),
    decreases size(node), 7nat, 0nat,
{
    let limits = confined(places);
    let whole = dir_prepared(path, work, node, false, has_tmpfs, prepared);
    lemma_replies_stay(io, prepared, limits, |r: ReplyView| plain_reply(r));
    match prepared.out {
        Outcome::Done(_) => {
            let request = Request::Exists(path);
            let look = ask(prepared.io, request);
            lemma_plain_ask(prepared.io, request);
            assert(whole == dir_looked_at(path, work, node, false, has_tmpfs, look));
            assert(all_ready(places, node.children, has_tmpfs)) by {
                assert forall|i: int| 0 <= i < node.children.len() implies ready(
                    places,
                    #[trigger] node.children[i],
                    has_tmpfs,
                ) by {
                    assert(sound(node.children[i]));
                }
            }
            match look.out {
                Outcome::Done(reply) => {
                    if flag_of(reply) && !node.replace {
                        let list = Request::ListDir(path);
                        let listed = ask(look.io, list);
                        lemma_plain_ask(look.io, list);
                        assert(whole == dir_listed(path, work, node, false, has_tmpfs, listed));
                        match listed.out {
                            Outcome::Done(listing) => match listing_of(listing) {
                                Ok(entries) => {
                                    let walked = walk(
                                        path,
                                        work,
                                        node.children,
                                        entries,
                                        0,
                                        has_tmpfs,
                                        listed.io,
                                    );
                                    let left = leftover(node.children, entries, 0);
                                    assert(whole == dir_walked(
                                        path,
                                        work,
                                        false,
                                        false,
                                        has_tmpfs,
                                        leaving(walked, left),
                                    )) by {
                                        reveal(walk);
                                    }
                                    lemma_plain_listing(listing);
                                    listed_dir_stays_confined(
                                        places,
                                        path,
                                        work,
                                        node,
                                        entries,
                                        has_tmpfs,
                                        listed.io,
                                    );
                                },
                                Err(e) => {
                                    lemma_end(listed.io, Outcome::<()>::Fail(e), limits);
                                },
                            },
                            _ => {},
                        }
                        lemma_asked(look.io, list, whole, limits);
                    } else {
                        let start: Run<Seq<NodeView>> = done(look.io, node.children);
                        assert(whole == dir_walked(path, work, false, false, has_tmpfs, start));
                        walked_dir_stays_confined(
                            places,
                            path,
                            work,
                            node.children,
                            has_tmpfs,
                            look.io,
                        );
                    }
                },
                _ => {},
            }
            lemma_asked(prepared.io, request, whole, limits);
        },
        _ => {},
    }
    lemma_then(io, prepared, whole, limits);
}

/// A directory whose entries are known.
proof fn listed_dir_stays_confined(
    places: Places,
    path: Text,
    work: Text,
    node: NodeView,
    entries: Seq<Entry<Text>>,
    has_tmpfs: bool,
    io: Io,
)
    requires
        all_ready(places, node.children, has_tmpfs),
        within(places.device, path),
        within(places.work, work),
        plain_replies(io),
        forall|j: int| 0 <= j < entries.len() ==> plain_entry(#[trigger] entries[j]),
    ensures
        proceeds(
            io,
            dir_walked(
                path,
                work,
                false,
                false,
                has_tmpfs,
                leaving(
                    walk(path, work, node.children, entries, 0, has_tmpfs, io),
                    leftover(node.children, entries, 0),
                ),
            ),
            confined(places),
        ),
    decreases size(node), 5nat, 0nat,
{
    let limits = confined(places);
    let walked = walk(path, work, node.children, entries, 0, has_tmpfs, io);
    let left = leftover(node.children, entries, 0);
    let start = leaving(walked, left);
    let whole = dir_walked(path, work, false, false, has_tmpfs, start);
    lemma_leftover_size(node.children, entries, 0);
    lemma_leftover_ready(places, node.children, entries, 0, has_tmpfs);
    walk_stays_confined(places, path, work, node.children, entries, 0, has_tmpfs, io);
    match walked.out {
        Outcome::Done(_) => {
            lemma_replies_stay(io, walked, limits, |r: ReplyView| plain_reply(r));
            walked_dir_stays_confined(places, path, work, left, has_tmpfs, walked.io);
        },
        _ => {},
    }
    lemma_then(io, walked, whole, limits);
}

/// A directory whose entries have been dealt with.
proof fn walked_dir_stays_confined(
    places: Places,
    path: Text,
    work: Text,
    left: Seq<NodeView>,
    has_tmpfs: bool,
    io: Io,
)
    requires
        all_ready(places, left, has_tmpfs),
        within(places.device, path),
        within(places.work, work),
        plain_replies(io),
    ensures
        proceeds(
            io,
            dir_walked(path, work, false, false, has_tmpfs, done(io, left)),
            confined(places),
        ),
    decreases sizes(left) + 1, 4nat, 0nat,
{
    let limits = confined(places);
    let filled = fill(path, work, left, has_tmpfs, io);
    let whole = dir_walked(path, work, false, false, has_tmpfs, done(io, left));
    fill_stays_confined(places, path, work, left, has_tmpfs, io);
    assert(whole == dir_filled(path, work, false, filled)) by {
        reveal(fill);
    }
    lemma_end(filled.io, Outcome::Done(()), limits);
    lemma_then(io, filled, whole, limits);
}

/// Passing over an error leaves a computation in good order.
pub proof fn lemma_handled(places: Places, io: Io, run: Run<()>, has_tmpfs: bool)
    requires
        proceeds(io, run, confined(places)),
    ensures
        proceeds(io, handled(run, has_tmpfs), confined(places)),
{
    if run.out is Fail {
        lemma_recast(io, run, Outcome::Done(()), confined(places));
    }
}

/// Dealing with one of the device's entries stays within the places.
pub proof fn visited_stays_confined(
    places: Places,
    path: Text,
    work: Text,
    children: Seq<NodeView>,
    entry: Entry<Text>,
    has_tmpfs: bool,
    io: Io,
)
    requires
        all_ready(places, children, has_tmpfs),
        within(places.device, path),
        within(places.work, work),
        plain_replies(io),
        plain_entry(entry),
    ensures
        proceeds(io, visited(path, work, children, entry, has_tmpfs, io), confined(places)),
    decreases sizes(children), 10nat, 0nat,
{
    reveal(visited);
    reveal(mounted);
    let name = lossy_text(entry.name);
    lemma_end(io, Outcome::Done(()), confined(places));
    lemma_position(children, name);
    match position(children, name) {
        Some(k) => {
            lemma_sizes_remove(children, k);
            if !children[k].skip {
                mounting_stays_confined(places, path, work, children[k], has_tmpfs, io);
                let run = mounted(path, work, children[k], has_tmpfs, io);
                lemma_noted(places, Task::MagicMount { path, name }, io, run);
            }
        },
        None => {
            if has_tmpfs {
                lemma_mirror_confined(places, path, work, entry);
                confined_steps_stay_confined(places, mirror_steps(path, work, entry), io);
                let run = perform(mirror_steps(path, work, entry), io);
                lemma_noted(places, Task::MountMirror { path, name }, io, run);
            }
        },
    }
}

/// Dealing with the device's entries stays within the places.
pub proof fn walk_stays_confined(
    places: Places,
    path: Text,
    work: Text,
    children: Seq<NodeView>,
    entries: Seq<Entry<Text>>,
    i: int,
    has_tmpfs: bool,
    io: Io,
)
    requires
        all_ready(places, children, has_tmpfs),
        within(places.device, path),
        within(places.work, work),
        plain_replies(io),
        forall|j: int| 0 <= j < entries.len() ==> plain_entry(#[trigger] entries[j]),
    ensures
        proceeds(io, walk(path, work, children, entries, i, has_tmpfs, io), confined(places)),
    decreases sizes(children), 11nat, 2 * still_to_come(entries, i),
{
    let limits = confined(places);
    if i < 0 || i >= entries.len() {
        reveal(walk);
        lemma_end(io, Outcome::Done(()), limits);
    } else {
        let name = lossy_text(entries[i].name);
        let left = without(children, name);
        let run = visited(path, work, children, entries[i], has_tmpfs, io);
        let result = handled(run, has_tmpfs);
        let whole = walk(path, work, children, entries, i, has_tmpfs, io);
        assert(plain_entry(entries[i]));
        visited_stays_confined(places, path, work, children, entries[i], has_tmpfs, io);
        lemma_handled(places, io, run, has_tmpfs);
        lemma_walk_step(path, work, children, entries, i, has_tmpfs, io);
        lemma_walk_on(path, work, left, entries, i + 1, has_tmpfs, run);
        lemma_without_size(children, name);
        lemma_without_ready(places, children, name, has_tmpfs);
        match result.out {
            Outcome::Done(_) => {
                lemma_replies_stay(io, result, limits, |r: ReplyView| plain_reply(r));
                walk_stays_confined(
                    places,
                    path,
                    work,
                    left,
                    entries,
                    i + 1,
                    has_tmpfs,
                    result.io,
                );
            },
            _ => {},
        }
        lemma_then(io, result, whole, limits);
    }
}

/// Mounting several children stays within the places.
pub proof fn fill_stays_confined(
    places: Places,
    path: Text,
    work: Text,
    children: Seq<NodeView>,
    has_tmpfs: bool,
    io: Io,
)
    requires
        all_ready(places, children, has_tmpfs),
        within(places.device, path),
        within(places.work, work),
        plain_replies(io),
    ensures
        proceeds(io, fill(path, work, children, has_tmpfs, io), confined(places)),
    decreases sizes(children), 11nat, 0nat,
{
    let limits = confined(places);
    if children.len() == 0 {
        reveal(fill);
        lemma_end(io, Outcome::Done(()), limits);
    } else {
        let first = children[0];
        let left = children.drop_first();
        let task = Task::MagicMount { path, name: first.name };
        let inner = if first.skip {
            done(io, ())
        } else {
            mounted(path, work, first, has_tmpfs, io)
        };
        let run = noted(task, inner);
        let result = handled(run, has_tmpfs);
        let whole = fill(path, work, children, has_tmpfs, io);
        assert(ready(places, first, has_tmpfs));
        assert(sizes(children) == size(first) + sizes(left));
        assert(size(first) >= 1);
        if first.skip {
            lemma_end(io, Outcome::Done(()), limits);
        } else {
            mounting_stays_confined(places, path, work, first, has_tmpfs, io);
        }
        lemma_noted(places, task, io, inner);
        lemma_handled(places, io, run, has_tmpfs);
        lemma_fill_step(path, work, children, has_tmpfs, io);
        lemma_fill_on(path, work, left, has_tmpfs, run);
        assert forall|i: int| 0 <= i < left.len() implies ready(
            places,
            #[trigger] left[i],
            has_tmpfs,
        ) by {
            assert(ready(places, children[i + 1], has_tmpfs));
        }
        match result.out {
            Outcome::Done(_) => {
                lemma_replies_stay(io, result, limits, |r: ReplyView| plain_reply(r));
                fill_stays_confined(places, path, work, left, has_tmpfs, result.io);
            },
            _ => {},
        }
        lemma_then(io, result, whole, limits);
    }
}

} // verus!
