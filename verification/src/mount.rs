//! Mounting a tree of nodes over the device's files.
//!
//! A file is bound over the device's file of the same name. Where that cannot be done, because
//! the device has no such file or one of another type, the directory around it is first built
//! anew on a memory file system, filled with what was there, and moved over the old one.

use vstd::prelude::*;

use crate::bytes::{joined, lossy_text};
use crate::node::{lemma_position, needs_tmpfs, position, probe_of, NodeFileType, NodeView};
use crate::protocol::{
    ask, done, fail, flag_of, listing_of, noted, still_to_come, waiting, Entry, Error, Io, Outcome,
    ReplyView, Request, Run, Task, Text,
};
use crate::script::{clone_symlink_step, mirror_steps, must, perform, skeleton_steps, task, Step};

verus! {

/// The number of nodes of a tree.
pub open spec fn size(node: NodeView) -> nat
    decreases node,
{
    1 + sizes(node.children)
}

/// The number of nodes of several trees.
pub open spec fn sizes(nodes: Seq<NodeView>) -> nat
    decreases nodes,
{
    if nodes.len() == 0 {
        0
    } else {
        size(nodes[0]) + sizes(nodes.drop_first())
    }
}

/// Trees are as large as before when one is exchanged for another of its size.
pub proof fn lemma_sizes_update(nodes: Seq<NodeView>, k: int, node: NodeView)
    requires
        0 <= k < nodes.len(),
        size(node) == size(nodes[k]),
    ensures
        sizes(nodes.update(k, node)) == sizes(nodes),
    decreases nodes.len(),
{
    let new = nodes.update(k, node);
    if k == 0 {
        assert(new.drop_first() =~= nodes.drop_first());
    } else {
        assert(new.drop_first() =~= nodes.drop_first().update(k - 1, node));
        lemma_sizes_update(nodes.drop_first(), k - 1, node);
    }
}

/// Trees are smaller by the size of the one that is taken out.
pub proof fn lemma_sizes_remove(nodes: Seq<NodeView>, k: int)
    requires
        0 <= k < nodes.len(),
    ensures
        sizes(nodes) == size(nodes[k]) + sizes(nodes.remove(k)),
        size(nodes[k]) >= 1,
    decreases nodes.len(),
{
    let rest = nodes.remove(k);
    if k == 0 {
        assert(rest =~= nodes.drop_first());
    } else {
        assert(rest.drop_first() =~= nodes.drop_first().remove(k - 1));
        assert(rest[0] == nodes[0]);
        assert(nodes.drop_first()[k - 1] == nodes[k]);
        lemma_sizes_remove(nodes.drop_first(), k - 1);
    }
}

/// A node whose child at `i` is to be left out.
pub open spec fn with_skipped(node: NodeView, i: int) -> NodeView {
    NodeView {
        children: node.children.update(i, NodeView { skip: true, ..node.children[i] }),
        ..node
    }
}

/// Decides whether the directory `path` has to be built anew so that the node's children can be
/// mounted in it. Inside a directory that is built anew already, no. A directory that a module
/// replaces, yes. Otherwise each child is held against the device's file of its name. A directory
/// of the device itself is never built anew: there the child is marked to be left out.
pub open spec fn tmpfs_decision(path: Text, node: NodeView, has_tmpfs: bool, io: Io) -> Run<
    (bool, NodeView),
> {
    if has_tmpfs {
        done(io, (false, node))
    } else if node.replace && node.origin is Some {
        done(io, (true, node))
    } else {
        weigh(path, node, 0, io)
    }
}

/// Holds the children from `i` on against the device's files.
pub open spec fn weigh(path: Text, node: NodeView, i: int, io: Io) -> Run<(bool, NodeView)>
    decreases node.children.len() - i, 0nat,
{
    if i < 0 || i >= node.children.len() {
        done(io, (false, node))
    } else {
        let child = node.children[i];
        match probe_of(child.file_type, joined(path, child.name)) {
            None => weighed(path, node, i, true, io),
            Some(request) => {
                let run = ask(io, request);
                match run.out {
                    Outcome::Done(reply) => weighed(
                        path,
                        node,
                        i,
                        needs_tmpfs(child.file_type, reply),
                        run.io,
                    ),
                    Outcome::Fail(e) => fail(run.io, e),
                    Outcome::Waiting => waiting(run.io),
                }
            },
        }
    }
}

/// Goes on when it is known whether the child at `i` needs a directory built anew.
pub open spec fn weighed(path: Text, node: NodeView, i: int, needed: bool, io: Io) -> Run<
    (bool, NodeView),
>
    decreases node.children.len() - i - 1, 1nat,
{
    if needed && node.origin is Some {
        done(io, (true, node))
    } else if i < 0 || i >= node.children.len() {
        done(io, (false, node))
    } else if needed {
        weigh(path, with_skipped(node, i), i + 1, io)
    } else {
        weigh(path, node, i + 1, io)
    }
}

/// The size of the node that a decision hands on.
pub open spec fn decided_size(run: Run<(bool, NodeView)>) -> nat {
    match run.out {
        Outcome::Done(decision) => size(decision.1),
        _ => 0,
    }
}

/// Holding children against the device's files does not make a node larger.
pub proof fn lemma_weigh_size(path: Text, node: NodeView, i: int, io: Io)
    ensures
        decided_size(weigh(path, node, i, io)) <= size(node),
    decreases node.children.len() - i,
{
    if 0 <= i < node.children.len() {
        let child = node.children[i];
        let skipped = with_skipped(node, i);
        assert(size(NodeView { skip: true, ..child }) == size(child));
        lemma_sizes_update(node.children, i, NodeView { skip: true, ..child });
        assert(size(skipped) == size(node));
        match probe_of(child.file_type, joined(path, child.name)) {
            None => {
                lemma_weigh_size(path, skipped, i + 1, io);
            },
            Some(request) => {
                let run = ask(io, request);
                lemma_weigh_size(path, skipped, i + 1, run.io);
                lemma_weigh_size(path, node, i + 1, run.io);
            },
        }
    }
}

/// Deciding on a directory does not make its node larger.
pub proof fn lemma_decision_size(path: Text, node: NodeView, has_tmpfs: bool, io: Io)
    ensures
        decided_size(tmpfs_decision(path, node, has_tmpfs, io)) <= size(node),
{
    lemma_weigh_size(path, node, 0, io);
}

/// The steps that mount a file: it is bound over the device's file, or over a new file in the
/// directory that is built anew.
pub open spec fn file_steps(path: Text, work: Text, origin: Option<Text>, has_tmpfs: bool) -> Seq<
    Step<Text>,
> {
    let target = if has_tmpfs {
        work
    } else {
        path
    };
    let mount = match origin {
        Some(source) => must(Request::BindMount { source, target }),
        None => Step::Abort(Error::RootFile(path)),
    };
    if has_tmpfs {
        seq![must(Request::CreateFile(work)), mount]
    } else {
        seq![mount]
    }
}

/// The steps that mount a symbolic link: it is made again in the directory that is built anew.
pub open spec fn symlink_steps(path: Text, work: Text, origin: Option<Text>) -> Seq<Step<Text>> {
    match origin {
        Some(source) => seq![clone_symlink_step(source, work)],
        None => seq![Step::Abort(Error::RootSymlink(path))],
    }
}

/// The steps before a directory is filled: it is built anew if it has to be, and made a mount of
/// its own if it is the outermost directory of that kind.
pub open spec fn prepare_steps(
    path: Text,
    work: Text,
    origin: Option<Text>,
    create: bool,
    has_tmpfs: bool,
) -> Seq<Step<Text>> {
    let build = if has_tmpfs {
        skeleton_steps(path, work, origin)
    } else {
        Seq::empty()
    };
    if create {
        build.push(task(Task::BindSelf, Request::BindMount { source: work, target: work }))
    } else {
        build
    }
}

/// The steps after a directory was filled: the outermost directory that was built anew is moved
/// over the device's.
pub open spec fn finish_steps(path: Text, work: Text, create: bool) -> Seq<Step<Text>> {
    if create {
        seq![
            task(Task::MoveSelf, Request::MoveMount { source: work, target: path }),
            task(Task::MakeSelfPrivate, Request::MakePrivate(path)),
        ]
    } else {
        Seq::empty()
    }
}

/// What becomes of the result of mounting one child: inside a directory that is built anew an
/// error ends everything, elsewhere it is passed over.
pub open spec fn handled(run: Run<()>, has_tmpfs: bool) -> Run<()> {
    match run.out {
        Outcome::Fail(_) => if has_tmpfs {
            run
        } else {
            done(run.io, ())
        },
        _ => run,
    }
}

/// The children but for the one with a name.
pub open spec fn without(children: Seq<NodeView>, name: Text) -> Seq<NodeView> {
    match position(children, name) {
        Some(k) => children.remove(k),
        None => children,
    }
}

/// The children that are left when those with the names of the entries from `i` on are taken out.
pub open spec fn leftover(children: Seq<NodeView>, entries: Seq<Entry<Text>>, i: int) -> Seq<
    NodeView,
>
    decreases entries.len() - i,
{
    if i < 0 || i >= entries.len() {
        children
    } else {
        leftover(without(children, lossy_text(entries[i].name)), entries, i + 1)
    }
}

/// Taking out a child does not make the rest larger.
pub proof fn lemma_without_size(children: Seq<NodeView>, name: Text)
    ensures
        sizes(without(children, name)) <= sizes(children),
{
    lemma_position(children, name);
    match position(children, name) {
        Some(k) => {
            lemma_sizes_remove(children, k);
        },
        None => {},
    }
}

/// Taking out children does not make the rest larger.
pub proof fn lemma_leftover_size(children: Seq<NodeView>, entries: Seq<Entry<Text>>, i: int)
    ensures
        sizes(leftover(children, entries, i)) <= sizes(children),
    decreases entries.len() - i,
{
    if 0 <= i < entries.len() {
        let name = lossy_text(entries[i].name);
        lemma_without_size(children, name);
        lemma_leftover_size(without(children, name), entries, i + 1);
    }
}

/// Hands on the children that are left.
pub open spec fn leaving(run: Run<()>, left: Seq<NodeView>) -> Run<Seq<NodeView>> {
    match run.out {
        Outcome::Done(_) => done(run.io, left),
        Outcome::Fail(e) => fail(run.io, e),
        Outcome::Waiting => waiting(run.io),
    }
}

/// The size of the children that are handed on, and one more.
pub open spec fn left_size(run: Run<Seq<NodeView>>) -> nat {
    match run.out {
        Outcome::Done(left) => sizes(left) + 1,
        _ => 0,
    }
}

/// Mounts a node in the directory `parent`, whose counterpart on the memory file system is
/// `parent_work`.
#[verifier::opaque]
pub open spec fn mounted(
    parent: Text,
    parent_work: Text,
    node: NodeView,
    has_tmpfs: bool,
    io: Io,
) -> Run<()>
    decreases size(node), 9nat, 0nat,
{
    let path = joined(parent, node.name);
    let work = joined(parent_work, node.name);
    match node.file_type {
        NodeFileType::RegularFile => perform(file_steps(path, work, node.origin, has_tmpfs), io),
        NodeFileType::Symlink => perform(symlink_steps(path, work, node.origin), io),
        NodeFileType::Directory => {
            proof {
                lemma_decision_size(path, node, has_tmpfs, io);
            }
            dir_decided(path, work, has_tmpfs, tmpfs_decision(path, node, has_tmpfs, io))
        },
        NodeFileType::Whiteout => done(io, ()),
    }
}

/// Goes on with a directory when it is known whether it has to be built anew.
pub open spec fn dir_decided(
    path: Text,
    work: Text,
    has_tmpfs: bool,
    run: Run<(bool, NodeView)>,
) -> Run<()>
    decreases decided_size(run), 8nat, 0nat,
{
    match run.out {
        Outcome::Done(decision) => {
            let create = decision.0;
            let node = decision.1;
            let has = has_tmpfs || create;
            dir_prepared(
                path,
                work,
                node,
                create,
                has,
                perform(prepare_steps(path, work, node.origin, create, has), run.io),
            )
        },
        Outcome::Fail(e) => fail(run.io, e),
        Outcome::Waiting => waiting(run.io),
    }
}

/// Goes on with a directory when it is ready to be filled.
pub open spec fn dir_prepared(
    path: Text,
    work: Text,
    node: NodeView,
    create: bool,
    has_tmpfs: bool,
    run: Run<()>,
) -> Run<()>
    decreases size(node), 7nat, 0nat,
{
    match run.out {
        Outcome::Done(_) => dir_looked_at(
            path,
            work,
            node,
            create,
            has_tmpfs,
            ask(run.io, Request::Exists(path)),
        ),
        Outcome::Fail(e) => fail(run.io, e),
        Outcome::Waiting => waiting(run.io),
    }
}

/// Goes on with a directory when it is known whether the device has it. What the device has there
/// is walked through unless a module replaces it.
pub open spec fn dir_looked_at(
    path: Text,
    work: Text,
    node: NodeView,
    create: bool,
    has_tmpfs: bool,
    run: Run<ReplyView>,
) -> Run<()>
    decreases size(node), 6nat, 0nat,
{
    match run.out {
        Outcome::Done(reply) => if flag_of(reply) && !node.replace {
            dir_listed(
                path,
                work,
                node,
                create,
                has_tmpfs,
                ask(run.io, Request::ListDir(path)),
            )
        } else {
            dir_walked(
                path,
                work,
                node.replace && node.origin is None,
                create,
                has_tmpfs,
                done(run.io, node.children),
            )
        },
        Outcome::Fail(e) => fail(run.io, e),
        Outcome::Waiting => waiting(run.io),
    }
}

/// Goes on with a directory when the device's entries are known.
pub open spec fn dir_listed(
    path: Text,
    work: Text,
    node: NodeView,
    create: bool,
    has_tmpfs: bool,
    run: Run<ReplyView>,
) -> Run<()>
    decreases size(node), 5nat, 0nat,
{
    match run.out {
        Outcome::Done(reply) => match listing_of(reply) {
            Ok(entries) => {
                proof {
                    lemma_leftover_size(node.children, entries, 0);
                }
                dir_walked(
                    path,
                    work,
                    node.replace && node.origin is None,
                    create,
                    has_tmpfs,
                    leaving(
                        walk(path, work, node.children, entries, 0, has_tmpfs, run.io),
                        leftover(node.children, entries, 0),
                    ),
                )
            },
            Err(e) => fail(run.io, e),
        },
        Outcome::Fail(e) => fail(run.io, e),
        Outcome::Waiting => waiting(run.io),
    }
}

/// Goes on with a directory when the device's entries have been dealt with: the children that are
/// left are mounted.
pub open spec fn dir_walked(
    path: Text,
    work: Text,
    replaced_root: bool,
    create: bool,
    has_tmpfs: bool,
    run: Run<Seq<NodeView>>,
) -> Run<()>
    decreases left_size(run), 4nat, 0nat,
{
    match run.out {
        Outcome::Done(left) => if replaced_root {
            fail(run.io, Error::ReplacedRoot(path))
        } else {
            dir_filled(path, work, create, fill(path, work, left, has_tmpfs, run.io))
        },
        Outcome::Fail(e) => fail(run.io, e),
        Outcome::Waiting => waiting(run.io),
    }
}

/// Goes on with a directory when everything is mounted in it.
pub open spec fn dir_filled(path: Text, work: Text, create: bool, run: Run<()>) -> Run<()> {
    match run.out {
        Outcome::Done(_) => perform(finish_steps(path, work, create), run.io),
        Outcome::Fail(e) => fail(run.io, e),
        Outcome::Waiting => waiting(run.io),
    }
}

/// Deals with one of the device's entries: where there is a child of that name it is mounted,
/// unless it is to be left out, and any other entry is mirrored if the directory is built anew.
#[verifier::opaque]
pub open spec fn visited(
    path: Text,
    work: Text,
    children: Seq<NodeView>,
    entry: Entry<Text>,
    has_tmpfs: bool,
    io: Io,
) -> Run<()>
    decreases sizes(children), 10nat, 0nat,
{
    let name = lossy_text(entry.name);
    proof {
        lemma_position(children, name);
    }
    match position(children, name) {
        Some(k) => {
            proof {
                lemma_sizes_remove(children, k);
            }
            if children[k].skip {
                done(io, ())
            } else {
                noted(
                    Task::MagicMount { path, name },
                    mounted(path, work, children[k], has_tmpfs, io),
                )
            }
        },
        None => if has_tmpfs {
            noted(Task::MountMirror { path, name }, perform(mirror_steps(path, work, entry), io))
        } else {
            done(io, ())
        },
    }
}

/// Deals with the device's entries from `i` on.
#[verifier::opaque]
pub open spec fn walk(
    path: Text,
    work: Text,
    children: Seq<NodeView>,
    entries: Seq<Entry<Text>>,
    i: int,
    has_tmpfs: bool,
    io: Io,
) -> Run<()>
    decreases sizes(children), 11nat, 2 * still_to_come(entries, i),
{
    if i < 0 || i >= entries.len() {
        done(io, ())
    } else {
        proof {
            lemma_without_size(children, lossy_text(entries[i].name));
        }
        walk_on(
            path,
            work,
            without(children, lossy_text(entries[i].name)),
            entries,
            i + 1,
            has_tmpfs,
            visited(path, work, children, entries[i], has_tmpfs, io),
        )
    }
}

/// Goes on with the entries from `i` on when one has been dealt with.
pub open spec fn walk_on(
    path: Text,
    work: Text,
    children: Seq<NodeView>,
    entries: Seq<Entry<Text>>,
    i: int,
    has_tmpfs: bool,
    run: Run<()>,
) -> Run<()>
    decreases sizes(children), 11nat, 2 * still_to_come(entries, i) + 1,
{
    let result = handled(run, has_tmpfs);
    match result.out {
        Outcome::Done(_) => walk(path, work, children, entries, i, has_tmpfs, result.io),
        _ => result,
    }
}

/// Mounts the children one after the other, but for those that are to be left out.
#[verifier::opaque]
pub open spec fn fill(
    path: Text,
    work: Text,
    children: Seq<NodeView>,
    has_tmpfs: bool,
    io: Io,
) -> Run<()>
    decreases sizes(children), 11nat, 0nat,
{
    if children.len() == 0 {
        done(io, ())
    } else {
        proof {
            assert(size(children[0]) >= 1);
        }
        fill_on(
            path,
            work,
            children.drop_first(),
            has_tmpfs,
            noted(
                Task::MagicMount { path, name: children[0].name },
                if children[0].skip {
                    done(io, ())
                } else {
                    mounted(path, work, children[0], has_tmpfs, io)
                },
            ),
        )
    }
}

/// Goes on with the children when one has been mounted.
pub open spec fn fill_on(
    path: Text,
    work: Text,
    children: Seq<NodeView>,
    has_tmpfs: bool,
    run: Run<()>,
) -> Run<()>
    decreases sizes(children), 12nat, 0nat,
{
    let result = handled(run, has_tmpfs);
    match result.out {
        Outcome::Done(_) => fill(path, work, children, has_tmpfs, result.io),
        _ => result,
    }
}

/// How a walk takes one entry.
pub proof fn lemma_walk_step(
    path: Text,
    work: Text,
    children: Seq<NodeView>,
    entries: Seq<Entry<Text>>,
    i: int,
    has_tmpfs: bool,
    io: Io,
)
    requires
        0 <= i < entries.len(),
    ensures
        walk(path, work, children, entries, i, has_tmpfs, io) == walk_on(
            path,
            work,
            without(children, lossy_text(entries[i].name)),
            entries,
            i + 1,
            has_tmpfs,
            visited(path, work, children, entries[i], has_tmpfs, io),
        ),
{
    reveal(walk);
    reveal(visited);
}

/// How a walk goes on after one entry.
pub proof fn lemma_walk_on(
    path: Text,
    work: Text,
    children: Seq<NodeView>,
    entries: Seq<Entry<Text>>,
    i: int,
    has_tmpfs: bool,
    run: Run<()>,
)
    ensures
        handled(run, has_tmpfs).out is Done ==> walk_on(
            path,
            work,
            children,
            entries,
            i,
            has_tmpfs,
            run,
        ) == walk(path, work, children, entries, i, has_tmpfs, run.io),
        !(handled(run, has_tmpfs).out is Done) ==> walk_on(
            path,
            work,
            children,
            entries,
            i,
            has_tmpfs,
            run,
        ) == run,
{
    reveal(walk);
}

/// How the first of several children is mounted.
pub proof fn lemma_fill_step(
    path: Text,
    work: Text,
    children: Seq<NodeView>,
    has_tmpfs: bool,
    io: Io,
)
    requires
        children.len() > 0,
    ensures
        fill(path, work, children, has_tmpfs, io) == fill_on(
            path,
            work,
            children.drop_first(),
            has_tmpfs,
            noted(
                Task::MagicMount { path, name: children[0].name },
                if children[0].skip {
                    done(io, ())
                } else {
                    mounted(path, work, children[0], has_tmpfs, io)
                },
            ),
        ),
{
    reveal(fill);
    reveal(mounted);
}

/// How the children go on after one.
pub proof fn lemma_fill_on(
    path: Text,
    work: Text,
    children: Seq<NodeView>,
    has_tmpfs: bool,
    run: Run<()>,
)
    ensures
        handled(run, has_tmpfs).out is Done ==> fill_on(path, work, children, has_tmpfs, run)
            == fill(path, work, children, has_tmpfs, run.io),
        !(handled(run, has_tmpfs).out is Done) ==> fill_on(path, work, children, has_tmpfs, run)
            == run,
{
    reveal(fill);
}

} // verus!
