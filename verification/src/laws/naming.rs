//! Errors name what was being done.

use vstd::prelude::*;

use crate::bytes::lossy_text;
use crate::laws::builtin::none_named;
use crate::laws::copying::lemma_answered;
use crate::laws::directories::steps_follow_each_other;
use crate::mount::{finish_steps, mounted, prepare_steps, visited};
use crate::node::{distinct, lemma_position, position, NodeView};
use crate::protocol::{
    done, fail, in_task, Entry, Error, Io, Outcome, ReplyView, Request, Task, Text,
};
use crate::script::{mirror_steps, must, perform, skeleton_steps, task, Purpose, Step};
use crate::session::setup_steps;

verus! {

/// Where the device has an entry of a child's name, that child is mounted, and its error names the
/// directory and the child. A child that is to be left out is passed over.
pub proof fn errors_name_the_child(
    path: Text,
    work: Text,
    children: Seq<NodeView>,
    k: int,
    entry: Entry<Text>,
    has_tmpfs: bool,
    io: Io,
)
    requires
        distinct(children),
        0 <= k < children.len(),
        children[k].name == lossy_text(entry.name),
    ensures
        ({
            let whole = visited(path, work, children, entry, has_tmpfs, io);
            let run = mounted(path, work, children[k], has_tmpfs, io);
            &&& children[k].skip ==> whole == done(io, ())
            &&& !children[k].skip ==> match run.out {
                Outcome::Fail(e) => whole == fail::<()>(
                    run.io,
                    in_task(Task::MagicMount { path, name: children[k].name }, e),
                ),
                _ => whole == run,
            }
        }),
{
    reveal(visited);
    reveal(mounted);
    let name = lossy_text(entry.name);
    lemma_position(children, name);
    let p = position(children, name)->0;
    if p < k {
        assert(children[p].name != children[k].name);
    }
}

/// Where the device has an entry that no child has the name of, an error of mirroring it names the
/// directory and the entry.
pub proof fn errors_name_the_mirrored_entry(
    path: Text,
    work: Text,
    children: Seq<NodeView>,
    entry: Entry<Text>,
    io: Io,
)
    requires
        none_named(children, lossy_text(entry.name)),
    ensures
        ({
            let whole = visited(path, work, children, entry, true, io);
            let run = perform(mirror_steps(path, work, entry), io);
            match run.out {
                Outcome::Fail(e) => whole == fail::<()>(
                    run.io,
                    in_task(Task::MountMirror { path, name: lossy_text(entry.name) }, e),
                ),
                _ => whole == run,
            }
        }),
{
    reveal(visited);
    lemma_position(children, lossy_text(entry.name));
}

/// When a directory has been built anew, the next thing that is asked for is to make it a mount of
/// its own, and if that fails the error says so.
pub proof fn errors_name_the_new_mount(
    path: Text,
    work: Text,
    origin: Option<Text>,
    id: u64,
    io: Io,
)
    requires
        perform(skeleton_steps(path, work, origin), io).out is Done,
        perform(skeleton_steps(path, work, origin), io).io.rest.len() > 0,
        perform(skeleton_steps(path, work, origin), io).io.rest[0] == ReplyView::Failed(id),
    ensures
        ({
            let built = perform(skeleton_steps(path, work, origin), io);
            let whole = perform(prepare_steps(path, work, origin, true, true), io);
            &&& whole.out == Outcome::<()>::Fail(in_task(Task::BindSelf, Error::Failed(id)))
            &&& whole.io.asked == built.io.asked.push(
                Request::BindMount { source: work, target: work },
            )
        }),
{
    let none = Seq::<Step<Text>>::empty();
    let bind = Request::BindMount { source: work, target: work };
    let first = skeleton_steps(path, work, origin);
    let second = seq![task(Task::BindSelf, bind)];
    let built = perform(first, io);
    assert(prepare_steps(path, work, origin, true, true) =~= first + second);
    steps_follow_each_other(first, second, io);
    assert(second =~= second + none);
    let next = lemma_answered(bind, Purpose::Task(Task::BindSelf), none, built.io);
}

/// If a directory that was built anew cannot be moved over the device's, or not be made private
/// there, the error says so, and nothing else is asked for.
pub proof fn errors_name_the_move(path: Text, work: Text, id: u64, io: Io)
    requires
        io.rest.len() >= 2,
    ensures
        ({
            let whole = perform(finish_steps(path, work, true), io);
            let moving = Request::MoveMount { source: work, target: path };
            let private = Request::MakePrivate(path);
            &&& io.rest[0] == ReplyView::Failed(id) ==> {
                &&& whole.out == Outcome::<()>::Fail(in_task(Task::MoveSelf, Error::Failed(id)))
                &&& whole.io.asked == io.asked.push(moving)
            }
            &&& io.rest[0] == ReplyView::Done && io.rest[1] == ReplyView::Failed(id) ==> {
                &&& whole.out == Outcome::<()>::Fail(
                    in_task(Task::MakeSelfPrivate, Error::Failed(id)),
                )
                &&& whole.io.asked == io.asked.push(moving).push(private)
            }
        }),
{
    let none = Seq::<Step<Text>>::empty();
    let moving = Request::MoveMount { source: work, target: path };
    let private = Request::MakePrivate(path);
    let last = seq![task(Task::MakeSelfPrivate, private)];
    assert(finish_steps(path, work, true) =~= seq![task(Task::MoveSelf, moving)] + last);
    let next = lemma_answered(moving, Purpose::Task(Task::MoveSelf), last, io);
    assert(none + last =~= last + none);
    let after = lemma_answered(private, Purpose::Task(Task::MakeSelfPrivate), none, next);
}

/// If the memory file system cannot be set up, the error says what failed, and nothing else is
/// asked for.
pub proof fn errors_name_the_setup(tmp: Text, id: u64, io: Io)
    requires
        io.rest.len() >= 3,
    ensures
        ({
            let whole = perform(setup_steps(tmp), io);
            let ensure = Request::EnsureDir(tmp);
            let mount = Request::MountTmpfs(tmp);
            let private = Request::MakePrivate(tmp);
            &&& io.rest[0] == ReplyView::Failed(id) ==> {
                &&& whole.out == Outcome::<()>::Fail(Error::Failed(id))
                &&& whole.io.asked == io.asked.push(ensure)
            }
            &&& io.rest[0] == ReplyView::Done && io.rest[1] == ReplyView::Failed(id) ==> {
                &&& whole.out == Outcome::<()>::Fail(in_task(Task::MountTmp, Error::Failed(id)))
                &&& whole.io.asked == io.asked.push(ensure).push(mount)
            }
            &&& io.rest[0] == ReplyView::Done && io.rest[1] == ReplyView::Done && io.rest[2]
                == ReplyView::Failed(id) ==> {
                &&& whole.out == Outcome::<()>::Fail(
                    in_task(Task::MakeTmpPrivate, Error::Failed(id)),
                )
                &&& whole.io.asked == io.asked.push(ensure).push(mount).push(private)
            }
        }),
{
    let none = Seq::<Step<Text>>::empty();
    let ensure = Request::EnsureDir(tmp);
    let mount = Request::MountTmpfs(tmp);
    let private = Request::MakePrivate(tmp);
    let third = seq![task(Task::MakeTmpPrivate, private)];
    let second = seq![task(Task::MountTmp, mount)] + third;
    assert(setup_steps(tmp) =~= seq![must(ensure)] + second);
    let one = lemma_answered(ensure, Purpose::Success, second, io);
    assert(none + second =~= second);
    let two = lemma_answered(mount, Purpose::Task(Task::MountTmp), third, one);
    assert(none + third =~= third + none);
    let three = lemma_answered(private, Purpose::Task(Task::MakeTmpPrivate), none, two);
}

} // verus!
