//! No failure is passed over where something is built.

use vstd::prelude::*;

use crate::bytes::{joined, lossy_text};
use crate::laws::conversation::{lemma_ask, lemma_proceeds, lemma_then, no_limits, proceeds};
use crate::laws::copying::lemma_answered;
use crate::laws::mounting::lemma_finished_last;
use crate::laws::orderly::{
    fills_are_orderly, prepared_dirs_are_orderly, steps_are_orderly, visits_are_orderly,
    walks_are_orderly,
};
use crate::laws::reading::lemma_asked;
use crate::laws::showing::{lemma_filled_plain, lemma_first_orderly, lemma_listed_orderly};
use crate::mount::{
    dir_decided, dir_filled, dir_listed, dir_looked_at, dir_prepared, dir_walked, file_steps, fill,
    finish_steps, handled, leaving, leftover, lemma_decision_size, lemma_fill_on, lemma_fill_step,
    lemma_leftover_size, lemma_sizes_remove, lemma_walk_on, lemma_walk_step, lemma_without_size,
    mounted, prepare_steps, size, sizes, symlink_steps, tmpfs_decision, visited, walk, without,
};
use crate::node::{lemma_position, position, NodeFileType, NodeView};
use crate::overlay::{overlay_steps, PartitionView};
use crate::protocol::{
    ask, done, flag_of, listing_of, noted, still_to_come, Entry, Io, ReplyView, Request, Run, Task,
    Text,
};
use crate::script::{consequence, mirror_all, mirror_steps, perform, perform_reply, Purpose, Step};
use crate::session::setup_steps;

verus! {

/// A request that changes something.
pub open spec fn changes(request: Request<Text>) -> bool {
    match request {
        Request::Exists(_) => false,
        Request::IsDir(_) => false,
        Request::IsSymlink(_) => false,
        Request::ListDir(_) => false,
        Request::Lstat(_) => false,
        Request::Stat(_) => false,
        Request::GetXattr { .. } => false,
        Request::ReadText(_) => false,
        Request::ReadLink(_) => false,
        Request::GetLabel(_) => false,
        _ => true,
    }
}

/// A reply says that a request was met: a change was made, or what was asked for was told.
pub open spec fn met(request: Request<Text>, reply: ReplyView) -> bool {
    &&& changes(request) ==> reply == ReplyView::Done
    &&& request is ReadLink || request is GetLabel ==> reply is Data
    &&& request is Stat || request is Lstat ==> reply is Stat
    &&& request is ListDir ==> reply is Listing
}

/// All requests of one conversation behind another were met.
pub open spec fn all_met(io: Io, end: Io) -> bool {
    forall|j: int|
        io.asked.len() <= j < end.asked.len() && j - io.asked.len() < io.rest.len() ==> met(
            #[trigger] end.asked[j],
            io.rest[j - io.asked.len()],
        )
}

/// All requests were met if those of two parts were.
proof fn lemma_all_met<A, B>(io: Io, first: Run<A>, second: Run<B>)
    requires
        proceeds(io, first, no_limits()),
        first.out is Done,
        proceeds(first.io, second, no_limits()),
        all_met(io, first.io),
        all_met(first.io, second.io),
    ensures
        all_met(io, second.io),
{
    lemma_proceeds(io, first, no_limits());
    lemma_proceeds(first.io, second, no_limits());
    let n = first.io.asked.len() - io.asked.len();
    assert forall|j: int|
        io.asked.len() <= j < second.io.asked.len() && j - io.asked.len()
            < io.rest.len() implies met(
        #[trigger] second.io.asked[j],
        io.rest[j - io.asked.len()],
    ) by {
        if j < first.io.asked.len() {
            assert(second.io.asked.take(first.io.asked.len() as int)[j] == second.io.asked[j]);
            assert(met(first.io.asked[j], io.rest[j - io.asked.len()]));
        } else {
            assert(first.io.rest[j - first.io.asked.len()] == io.rest[j - io.asked.len()]);
        }
    }
}

/// All requests were met if the first was and those behind it were.
proof fn lemma_first_met<T>(io: Io, request: Request<Text>, whole: Run<T>)
    requires
        io.rest.len() > 0,
        met(request, io.rest[0]),
        proceeds(ask(io, request).io, whole, no_limits()),
        all_met(ask(io, request).io, whole.io),
    ensures
        all_met(io, whole.io),
{
    let run = ask(io, request);
    lemma_ask(io, request, no_limits());
    assert(all_met(io, run.io)) by {
        assert(run.io.asked[io.asked.len() as int] == request);
    }
    lemma_all_met(io, run, whole);
}

/// A step that has to succeed.
spec fn strict_step(step: Step<Text>) -> bool {
    match step {
        Step::Abort(_) => true,
        Step::Ask(request, purpose) => match purpose {
            Purpose::Success => changes(request),
            Purpose::Task(_) => changes(request),
            Purpose::Attempt => false,
            Purpose::Attributes { .. } => request is Stat || request is Lstat,
            Purpose::Label { .. } => request is GetLabel,
            Purpose::Link { .. } => request is ReadLink,
            Purpose::Mirror { .. } => request is ListDir,
            Purpose::Skeleton { .. } => request is Exists,
        },
    }
}

/// Steps that all have to succeed.
spec fn strict(steps: Seq<Step<Text>>) -> bool {
    forall|i: int| 0 <= i < steps.len() ==> strict_step(#[trigger] steps[i])
}

/// Steps one behind the other have to succeed if both have to.
proof fn lemma_strict_both(first: Seq<Step<Text>>, second: Seq<Step<Text>>)
    requires
        strict(first),
        strict(second),
    ensures
        strict(first + second),
{
    let all = first + second;
    assert forall|i: int| 0 <= i < all.len() implies strict_step(#[trigger] all[i]) by {
        if i < first.len() {
            assert(all[i] == first[i]);
        } else {
            assert(all[i] == second[i - first.len()]);
        }
    }
}

/// Mirroring several entries takes steps that have to succeed.
proof fn lemma_mirror_strict(path: Text, work: Text, entries: Seq<Entry<Text>>)
    ensures
        strict(mirror_all(path, work, entries)),
    decreases entries.len(),
{
    if entries.len() > 0 {
        lemma_mirror_strict(path, work, entries.drop_first());
        lemma_strict_both(
            mirror_steps(path, work, entries[0]),
            mirror_all(path, work, entries.drop_first()),
        );
    }
}

/// Steps that have to succeed end well only if all that they asked for was met.
proof fn lemma_strict_steps(steps: Seq<Step<Text>>, io: Io)
    requires
        strict(steps),
        perform(steps, io).out is Done,
    ensures
        all_met(io, perform(steps, io).io),
    decreases io.rest.len(),
{
    let whole = perform(steps, io);
    if steps.len() > 0 {
        assert(strict_step(steps[0]));
        match steps[0] {
            Step::Abort(_) => {},
            Step::Ask(request, purpose) => {
                let run = ask(io, request);
                if run.out is Done {
                    let reply = io.rest[0];
                    let rest = steps.drop_first();
                    assert(strict(rest)) by {
                        assert forall|i: int| 0 <= i < rest.len() implies strict_step(
                            #[trigger] rest[i],
                        ) by {
                            assert(strict_step(steps[i + 1]));
                        }
                    }
                    assert(whole == perform_reply(purpose, rest, reply, run.io));
                    match consequence(purpose, reply) {
                        Ok(more) => {
                            match purpose {
                                Purpose::Mirror { source, target } => {
                                    lemma_mirror_strict(
                                        source,
                                        target,
                                        listing_of(reply)->Ok_0,
                                    );
                                },
                                _ => {
                                    assert(strict(more));
                                },
                            }
                            lemma_strict_both(more, rest);
                            lemma_strict_steps(more + rest, run.io);
                            steps_are_orderly(more + rest, run.io);
                            lemma_first_met(io, request, whole);
                        },
                        Err(_) => {},
                    }
                }
            },
        }
    }
}

/// Mirroring an entry ends well only if all calls for it succeeded, at every depth.
pub proof fn mirroring_passes_over_nothing(path: Text, work: Text, entry: Entry<Text>, io: Io)
    ensures
        ({
            let run = perform(mirror_steps(path, work, entry), io);
            run.out is Done ==> all_met(io, run.io)
        }),
{
    assert(strict(mirror_steps(path, work, entry)));
    if perform(mirror_steps(path, work, entry), io).out is Done {
        lemma_strict_steps(mirror_steps(path, work, entry), io);
    }
}

/// The memory file system is there only if all calls for it succeeded.
pub proof fn setting_up_passes_over_nothing(tmp: Text, io: Io)
    ensures
        perform(setup_steps(tmp), io).out is Done ==> all_met(
            io,
            perform(setup_steps(tmp), io).io,
        ),
{
    assert(strict(setup_steps(tmp)));
    if perform(setup_steps(tmp), io).out is Done {
        lemma_strict_steps(setup_steps(tmp), io);
    }
}

/// Mounting a file or a link ends well only if all calls for it succeeded.
pub proof fn mounting_files_passes_over_nothing(
    parent: Text,
    parent_work: Text,
    node: NodeView,
    has_tmpfs: bool,
    io: Io,
)
    requires
        node.file_type != NodeFileType::Directory,
    ensures
        ({
            let run = mounted(parent, parent_work, node, has_tmpfs, io);
            run.out is Done ==> all_met(io, run.io)
        }),
{
    reveal(mounted);
    let path = joined(parent, node.name);
    let work = joined(parent_work, node.name);
    let run = mounted(parent, parent_work, node, has_tmpfs, io);
    let file = file_steps(path, work, node.origin, has_tmpfs);
    let link = symlink_steps(path, work, node.origin);
    assert(strict(file));
    assert(strict(link));
    if run.out is Done {
        match node.file_type {
            NodeFileType::RegularFile => {
                lemma_strict_steps(file, io);
            },
            NodeFileType::Symlink => {
                lemma_strict_steps(link, io);
            },
            _ => {},
        }
    }
}

/// Inside a directory that is built anew, mounting ends well only if all calls succeeded, at every
/// depth.
pub proof fn mounting_inside_passes_over_nothing(
    parent: Text,
    parent_work: Text,
    node: NodeView,
    io: Io,
)
    ensures
        ({
            let run = mounted(parent, parent_work, node, true, io);
            run.out is Done ==> all_met(io, run.io)
        }),
    decreases size(node), 9nat, 0nat,
{
    reveal(mounted);
    let path = joined(parent, node.name);
    let work = joined(parent_work, node.name);
    let whole = mounted(parent, parent_work, node, true, io);
    if node.file_type != NodeFileType::Directory {
        mounting_files_passes_over_nothing(parent, parent_work, node, true, io);
    } else {
        let decision = tmpfs_decision(path, node, true, io);
        lemma_decision_size(path, node, true, io);
        assert(whole == dir_decided(path, work, true, decision));
        assert(decision == done(io, (false, node)));
        building_passes_over_nothing(path, work, node, false, true, io);
    }
}

/// A directory that is built anew, or stands in one that is, ends well only if all calls for it and
/// for all that is in it succeeded.
pub proof fn building_passes_over_nothing(
    path: Text,
    work: Text,
    node: NodeView,
    create: bool,
    has_tmpfs: bool,
    io: Io,
)
    requires
        has_tmpfs || create,
    ensures
        ({
            let run = dir_decided(path, work, has_tmpfs, done(io, (create, node)));
            run.out is Done ==> all_met(io, run.io)
        }),
    decreases size(node), 8nat, 0nat,
{
    let whole = dir_decided(path, work, has_tmpfs, done(io, (create, node)));
    let steps = prepare_steps(path, work, node.origin, create, true);
    let prepared = perform(steps, io);
    let inner = dir_prepared(path, work, node, false, true, prepared);
    let finish = finish_steps(path, work, create);
    lemma_finished_last(path, work, node, create, true, prepared);
    assert(whole == dir_filled(path, work, create, inner));
    if whole.out is Done {
        assert(strict(steps));
        assert(strict(finish));
        steps_are_orderly(steps, io);
        prepared_dirs_are_orderly(path, work, node, true, prepared);
        steps_are_orderly(finish, inner.io);
        lemma_strict_steps(steps, io);
        lemma_contents_met(path, work, node, prepared);
        lemma_strict_steps(finish, inner.io);
        lemma_all_met(io, prepared, inner);
        lemma_then(io, prepared, inner, no_limits());
        lemma_all_met(io, inner, whole);
    }
}

/// A directory that is built anew is filled only if all calls succeeded.
proof fn lemma_contents_met(path: Text, work: Text, node: NodeView, prepared: Run<()>)
    requires
        prepared.out is Done,
        dir_prepared(path, work, node, false, true, prepared).out is Done,
    ensures
        all_met(prepared.io, dir_prepared(path, work, node, false, true, prepared).io),
    decreases size(node), 7nat, 0nat,
{
    let q = no_limits();
    let whole = dir_prepared(path, work, node, false, true, prepared);
    let children = node.children;
    let request = Request::Exists(path);
    let look = ask(prepared.io, request);
    let replaced_root = node.replace && node.origin is None;
    assert(whole == dir_looked_at(path, work, node, false, true, look));
    let reply = prepared.io.rest[0];
    if flag_of(reply) && !node.replace {
        let list = Request::ListDir(path);
        let listing = ask(look.io, list);
        assert(whole == dir_listed(path, work, node, false, true, listing));
        let told = look.io.rest[0];
        let entries = listing_of(told)->Ok_0;
        let walked = walk(path, work, children, entries, 0, true, listing.io);
        let left = leftover(children, entries, 0);
        assert(whole == dir_walked(
            path,
            work,
            false,
            false,
            true,
            leaving(walked, left),
        )) by {
            reveal(walk);
        }
        lemma_leftover_size(children, entries, 0);
        lemma_filled_plain(path, work, left, true, walked.io);
        walks_are_orderly(path, work, children, entries, 0, true, listing.io);
        fills_are_orderly(path, work, left, true, walked.io);
        lemma_walk_met(path, work, children, entries, 0, listing.io);
        lemma_fill_met(path, work, left, walked.io);
        lemma_all_met(listing.io, walked, whole);
        lemma_listed_orderly(path, work, node, true, listing);
        lemma_first_met(look.io, list, whole);
        lemma_asked(look.io, list, whole, q);
    } else {
        assert(!replaced_root);
        let start: Run<Seq<NodeView>> = done(look.io, children);
        assert(whole == dir_walked(path, work, false, false, true, start));
        lemma_filled_plain(path, work, children, true, look.io);
        fills_are_orderly(path, work, children, true, look.io);
        lemma_fill_met(path, work, children, look.io);
    }
    lemma_first_met(prepared.io, request, whole);
}

/// In a directory that is built anew, the device's entries are dealt with only if all calls
/// succeeded.
proof fn lemma_walk_met(
    path: Text,
    work: Text,
    children: Seq<NodeView>,
    entries: Seq<Entry<Text>>,
    i: int,
    io: Io,
)
    requires
        walk(path, work, children, entries, i, true, io).out is Done,
    ensures
        all_met(io, walk(path, work, children, entries, i, true, io).io),
    decreases sizes(children), 11nat, 2 * still_to_come(entries, i),
{
    let whole = walk(path, work, children, entries, i, true, io);
    if i < 0 || i >= entries.len() {
        reveal(walk);
    } else {
        let entry = entries[i];
        let name = lossy_text(entry.name);
        let left = without(children, name);
        let run = visited(path, work, children, entry, true, io);
        lemma_walk_step(path, work, children, entries, i, true, io);
        lemma_walk_on(path, work, left, entries, i + 1, true, run);
        lemma_without_size(children, name);
        visits_are_orderly(path, work, children, entry, true, io);
        walks_are_orderly(path, work, left, entries, i + 1, true, run.io);
        assert(handled(run, true) == run);
        assert(run.out is Done);
        assert(whole == walk(path, work, left, entries, i + 1, true, run.io));
        lemma_visit_met(path, work, children, entry, io);
        lemma_walk_met(path, work, left, entries, i + 1, run.io);
        lemma_all_met(io, run, whole);
    }
}

/// In a directory that is built anew, one of the device's entries is dealt with only if all calls
/// succeeded.
proof fn lemma_visit_met(
    path: Text,
    work: Text,
    children: Seq<NodeView>,
    entry: Entry<Text>,
    io: Io,
)
    requires
        visited(path, work, children, entry, true, io).out is Done,
    ensures
        all_met(io, visited(path, work, children, entry, true, io).io),
    decreases sizes(children), 10nat, 0nat,
{
    reveal(visited);
    reveal(mounted);
    let name = lossy_text(entry.name);
    lemma_position(children, name);
    match position(children, name) {
        Some(k) => {
            lemma_sizes_remove(children, k);
            if !children[k].skip {
                mounting_inside_passes_over_nothing(path, work, children[k], io);
            }
        },
        None => {
            mirroring_passes_over_nothing(path, work, entry, io);
        },
    }
}

/// In a directory that is built anew, children are mounted only if all calls succeeded.
proof fn lemma_fill_met(path: Text, work: Text, children: Seq<NodeView>, io: Io)
    requires
        fill(path, work, children, true, io).out is Done,
    ensures
        all_met(io, fill(path, work, children, true, io).io),
    decreases sizes(children), 11nat, 0nat,
{
    let whole = fill(path, work, children, true, io);
    if children.len() == 0 {
        reveal(fill);
    } else {
        let first = children[0];
        let left = children.drop_first();
        let task = Task::MagicMount { path, name: first.name };
        let inner = if first.skip {
            done(io, ())
        } else {
            mounted(path, work, first, true, io)
        };
        let run = noted(task, inner);
        assert(sizes(children) == size(first) + sizes(left));
        assert(size(first) >= 1);
        lemma_fill_step(path, work, children, true, io);
        lemma_fill_on(path, work, left, true, run);
        lemma_first_orderly(path, work, first, true, io);
        fills_are_orderly(path, work, left, true, run.io);
        assert(handled(run, true) == run);
        assert(run.out is Done);
        if !first.skip {
            mounting_inside_passes_over_nothing(path, work, first, io);
        }
        lemma_fill_met(path, work, left, run.io);
        lemma_all_met(io, inner, whole);
    }
}

/// An overlay is mounted only if all calls for it succeeded, but for the one that sets its marker.
pub proof fn overlays_pass_over_markers_only(work_base: Text, partition: PartitionView, io: Io)
    ensures
        ({
            let run = perform(overlay_steps(work_base, partition), io);
            let n = io.asked.len() as int;
            run.out is Done ==> {
                &&& run.io.asked.len() == n + 4
                &&& io.rest.len() >= 4
                &&& met(run.io.asked[n], io.rest[0])
                &&& met(run.io.asked[n + 1], io.rest[1])
                &&& met(run.io.asked[n + 2], io.rest[2])
            }
        }),
{
    let none = Seq::<Step<Text>>::empty();
    let steps = overlay_steps(work_base, partition);
    let run = perform(steps, io);
    if run.out is Done {
        let fourth = seq![steps[3]];
        let third = seq![steps[2]] + fourth;
        let second = seq![steps[1]] + third;
        assert(steps =~= seq![steps[0]] + second);
        let n = io.asked.len() as int;
        let one = lemma_taken(steps[0], second, io);
        let two = lemma_taken(steps[1], third, one);
        let three = lemma_taken(steps[2], fourth, two);
        assert(fourth =~= fourth + none);
        if three.rest.len() > 0 {
            let next = lemma_answered(steps[3]->Ask_0, Purpose::Attempt, none, three);
            assert(none + none =~= none);
            assert(run.io == next);
        }
        assert(run.io.asked[n] == one.asked[n]);
        assert(run.io.asked[n + 1] == two.asked[n + 1]);
        assert(run.io.asked[n + 2] == three.asked[n + 2]);
    }
}

/// How one step that has to succeed is taken on the way to a good end.
proof fn lemma_taken(step: Step<Text>, rest: Seq<Step<Text>>, io: Io) -> (next: Io)
    requires
        strict_step(step),
        step matches Step::Ask(request, purpose) ==> purpose is Success || purpose is Task,
        perform(seq![step] + rest, io).out is Done,
    ensures
        io.rest.len() > 0,
        perform(seq![step] + rest, io) == perform(rest, next),
        step is Ask,
        next == ask(io, step->Ask_0).io,
        met(step->Ask_0, io.rest[0]),
{
    let steps = seq![step] + rest;
    assert(steps[0] == step);
    assert(steps.drop_first() =~= rest);
    match step {
        Step::Ask(request, purpose) => {
            let run = ask(io, request);
            if io.rest.len() > 0 {
                let reply = io.rest[0];
                assert(perform(steps, io) == perform_reply(purpose, rest, reply, run.io));
                assert(Seq::<Step<Text>>::empty() + rest =~= rest);
            }
            run.io
        },
        Step::Abort(_) => io,
    }
}

} // verus!
