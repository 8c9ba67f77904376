//! What ends a computation, and what does not.

use vstd::prelude::*;

use crate::bytes::{joined, lossy_text};
use crate::laws::copying::lemma_answered;
use crate::mount::{
    dir_looked_at, dir_prepared, dir_walked, file_steps, fill, lemma_fill_on, lemma_fill_step,
    lemma_walk_on, lemma_walk_step, mounted, symlink_steps, visited, walk, without,
};
use crate::node::{NodeFileType, NodeView};
use crate::protocol::{
    ask, cause, data_of, done, done_of, fail, flag_of, in_task, listing_of, noted, stat_of, Entry,
    Error, FileKind, Io, Outcome, ReplyView, Request, Run, Task, Text,
};
use crate::script::{attempt, mirror_steps, must, perform, skeleton_steps, Purpose, Step};

verus! {

/// A reply answers only the kind of question that it belongs to, and hands on just what the host
/// said. A host's error keeps its number, and anything else is the wrong reply.
pub proof fn replies_are_taken_as_they_are(reply: ReplyView)
    ensures
        flag_of(reply) <==> reply == ReplyView::Flag(true),
        done_of(reply) is Ok <==> reply is Done,
        data_of(reply) is Ok <==> reply is Data,
        stat_of(reply) is Ok <==> reply is Stat,
        listing_of(reply) is Ok <==> reply is Listing,
        data_of(reply) matches Ok(bytes) ==> reply == ReplyView::Data(bytes),
        stat_of(reply) matches Ok(metadata) ==> reply == ReplyView::Stat(metadata),
        done_of(reply) matches Err(e) ==> e == wrong(reply),
        data_of(reply) matches Err(e) ==> e == wrong(reply),
        stat_of(reply) matches Err(e) ==> e == wrong(reply),
        listing_of(reply) matches Err(e) ==> e == wrong(reply),
{
}

/// Why a reply is no answer.
pub open spec fn wrong(reply: ReplyView) -> Error<Text> {
    match reply {
        ReplyView::Failed(id) => Error::Failed(id),
        _ => Error::WrongReply,
    }
}

/// An error keeps its cause through all tasks that it is named by.
pub proof fn errors_keep_their_cause(task: Task<Text>, error: Error<Text>, io: Io)
    ensures
        cause(in_task(task, error)) == cause(error),
        !(error is Within) ==> cause(error) == error,
        noted::<()>(task, fail(io, error)).out matches Outcome::Fail(e) && cause(e) == cause(error),
        noted::<()>(task, done(io, ())) == done(io, ()),
{
}

/// A call that fails ends the steps right behind itself with the host's error, unless it is one
/// that may fail or one that asks whether something is there.
pub proof fn failed_calls_end_the_steps(
    request: Request<Text>,
    purpose: Purpose<Text>,
    rest: Seq<Step<Text>>,
    id: u64,
    io: Io,
)
    requires
        io.rest.len() > 0,
        io.rest[0] == ReplyView::Failed(id),
        !(purpose is Attempt),
        !(purpose is Skeleton),
    ensures
        ({
            let run = perform(seq![Step::Ask(request, purpose)] + rest, io);
            &&& run.io.asked == io.asked.push(request)
            &&& run.io.rest == io.rest.drop_first()
            &&& run.out matches Outcome::Fail(e) && match purpose {
                Purpose::Task(task) => e == in_task(task, Error::Failed(id)),
                _ => e == Error::<Text>::Failed(id),
            }
        }),
{
    let next = lemma_answered(request, purpose, rest, io);
}

/// A call that may fail is gone on from whatever the reply is.
pub proof fn calls_that_may_fail_end_nothing(request: Request<Text>, rest: Seq<Step<Text>>, io: Io)
    requires
        io.rest.len() > 0,
    ensures
        perform(seq![attempt(request)] + rest, io) == perform(rest, ask(io, request).io),
{
    let next = lemma_answered(request, Purpose::Attempt, rest, io);
    assert(Seq::<Step<Text>>::empty() + rest =~= rest);
}

/// An entry whose kind the host cannot tell ends mirroring with the host's error, before anything
/// is asked.
pub proof fn unknown_entries_are_not_mirrored(
    path: Text,
    work: Text,
    entry: Entry<Text>,
    id: u64,
    io: Io,
)
    requires
        entry.kind == Err::<FileKind, u64>(id),
    ensures
        perform(mirror_steps(path, work, entry), io) == fail::<()>(io, Error::Failed(id)),
{
}

/// A file or a link that no module provides is not mounted. For a file that is only found out when
/// the new file is there, where there has to be one.
pub proof fn files_of_no_module_are_refused(
    parent: Text,
    parent_work: Text,
    node: NodeView,
    has_tmpfs: bool,
    io: Io,
)
    requires
        node.origin is None,
    ensures
        ({
            let run = mounted(parent, parent_work, node, has_tmpfs, io);
            let path = joined(parent, node.name);
            let work = joined(parent_work, node.name);
            &&& node.file_type == NodeFileType::Symlink ==> run == fail::<()>(
                io,
                Error::RootSymlink(path),
            )
            &&& node.file_type == NodeFileType::RegularFile && !has_tmpfs ==> run == fail::<()>(
                io,
                Error::RootFile(path),
            )
            &&& node.file_type == NodeFileType::RegularFile && has_tmpfs && io.rest.len() > 0
                && io.rest[0] == ReplyView::Done ==> run == fail::<()>(
                ask(io, Request::CreateFile(work)).io,
                Error::RootFile(path),
            )
        }),
{
    reveal(mounted);
    let path = joined(parent, node.name);
    let work = joined(parent_work, node.name);
    if node.file_type == NodeFileType::RegularFile && has_tmpfs && io.rest.len() > 0
        && io.rest[0] == ReplyView::Done {
        let steps = file_steps(path, work, node.origin, has_tmpfs);
        let last = seq![Step::Abort(Error::RootFile(path))];
        let create = Request::CreateFile(work);
        assert(steps =~= seq![must(create)] + last);
        let next = lemma_answered(create, Purpose::Success, last, io);
        assert(Seq::<Step<Text>>::empty() + last =~= last);
    }
    if node.file_type == NodeFileType::Symlink {
        assert(symlink_steps(path, work, node.origin)[0] == Step::Abort(
            Error::RootSymlink(path),
        ));
    }
}

/// A directory cannot be built anew in the likeness of nothing: if the device does not have it and
/// no module provides it, that ends everything.
pub proof fn directories_of_nobody_are_refused(path: Text, work: Text, io: Io)
    requires
        io.rest.len() >= 2,
        io.rest[0] == ReplyView::Done,
        io.rest[1] != ReplyView::Flag(true),
    ensures
        ({
            let run = perform(skeleton_steps(path, work, None), io);
            &&& run.out == Outcome::<()>::Fail(Error::RootDir(path))
            &&& run.io.asked == io.asked.push(Request::CreateDirAll(work)).push(
                Request::Exists(path),
            )
        }),
{
    let none = Seq::<Step<Text>>::empty();
    let make = Request::CreateDirAll(work);
    let look = Request::Exists(path);
    let purpose = Purpose::Skeleton { path, work, origin: None };
    let last = seq![Step::Ask(look, purpose)];
    assert(skeleton_steps(path, work, None) =~= seq![must(make)] + last);
    let next = lemma_answered(make, Purpose::Success, last, io);
    assert(none + last =~= last + none);
    let after = lemma_answered(look, purpose, none, next);
}

/// A directory cannot be replaced by nothing: that ends everything when it has been looked for,
/// before any child is mounted.
pub proof fn directories_are_not_replaced_by_nothing(
    path: Text,
    work: Text,
    node: NodeView,
    create: bool,
    has_tmpfs: bool,
    prepared: Run<()>,
)
    requires
        node.replace,
        node.origin is None,
        prepared.out is Done,
        prepared.io.rest.len() > 0,
    ensures
        dir_prepared(path, work, node, create, has_tmpfs, prepared) == fail::<()>(
            ask(prepared.io, Request::Exists(path)).io,
            Error::ReplacedRoot(path),
        ),
{
    let look = ask(prepared.io, Request::Exists(path));
    let whole = dir_prepared(path, work, node, create, has_tmpfs, prepared);
    assert(whole == dir_looked_at(path, work, node, create, has_tmpfs, look));
    let start: Run<Seq<NodeView>> = done(look.io, node.children);
    assert(whole == dir_walked(path, work, true, create, has_tmpfs, start));
}

/// When one of the device's entries has been dealt with, the others are gone on with, without the
/// child of its name. Only in a directory that is built anew an error ends everything.
pub proof fn entries_are_dealt_with_in_turn(
    path: Text,
    work: Text,
    children: Seq<NodeView>,
    entries: Seq<Entry<Text>>,
    i: int,
    has_tmpfs: bool,
    io: Io,
)
    requires
        0 <= i < entries.len(),
    ensures
        ({
            let whole = walk(path, work, children, entries, i, has_tmpfs, io);
            let run = visited(path, work, children, entries[i], has_tmpfs, io);
            let left = without(children, lossy_text(entries[i].name));
            match run.out {
                Outcome::Waiting => whole == run,
                Outcome::Fail(_) => whole == if has_tmpfs {
                    run
                } else {
                    walk(path, work, left, entries, i + 1, has_tmpfs, run.io)
                },
                Outcome::Done(_) => whole == walk(
                    path,
                    work,
                    left,
                    entries,
                    i + 1,
                    has_tmpfs,
                    run.io,
                ),
            }
        }),
{
    let run = visited(path, work, children, entries[i], has_tmpfs, io);
    let left = without(children, lossy_text(entries[i].name));
    lemma_walk_step(path, work, children, entries, i, has_tmpfs, io);
    lemma_walk_on(path, work, left, entries, i + 1, has_tmpfs, run);
}

/// When one child has been mounted, the others are gone on with. Only in a directory that is built
/// anew an error ends everything, and it names the child.
pub proof fn children_are_mounted_in_turn(
    path: Text,
    work: Text,
    children: Seq<NodeView>,
    has_tmpfs: bool,
    io: Io,
)
    requires
        children.len() > 0,
        !children[0].skip,
    ensures
        ({
            let whole = fill(path, work, children, has_tmpfs, io);
            let run = mounted(path, work, children[0], has_tmpfs, io);
            let left = children.drop_first();
            match run.out {
                Outcome::Waiting => whole == run,
                Outcome::Fail(e) => whole == if has_tmpfs {
                    fail(
                        run.io,
                        in_task(Task::MagicMount { path, name: children[0].name }, e),
                    )
                } else {
                    fill(path, work, left, has_tmpfs, run.io)
                },
                Outcome::Done(_) => whole == fill(path, work, left, has_tmpfs, run.io),
            }
        }),
{
    let inner = mounted(path, work, children[0], has_tmpfs, io);
    let run = noted(Task::MagicMount { path, name: children[0].name }, inner);
    lemma_fill_step(path, work, children, has_tmpfs, io);
    lemma_fill_on(path, work, children.drop_first(), has_tmpfs, run);
}

} // verus!
