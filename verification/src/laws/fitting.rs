//! Which directories have to be built anew, told from what is on the device.

use vstd::prelude::*;

use crate::bytes::joined;
use crate::laws::device::says_yes;
use crate::laws::finding::{
    decisions_follow_the_device, marked_from, needs_new_dir, truthful, World,
};
use crate::mount::tmpfs_decision;
use crate::node::{needs_tmpfs, probe_of, NodeFileType, NodeView};
use crate::protocol::{FileKind, Io, Outcome, ReplyView, Request, Text};

verus! {

/// A child can be mounted in the directory `path` as that stands. A file or a directory needs one
/// of its own kind there. A whiteout needs that there is nothing. A link never can.
pub open spec fn fits(world: World, path: Text, child: NodeView) -> bool {
    let place = joined(path, child.name);
    match child.file_type {
        NodeFileType::RegularFile => world(Request::Lstat(place)) matches ReplyView::Stat(m)
            && m.kind == FileKind::File,
        NodeFileType::Directory => world(Request::Lstat(place)) matches ReplyView::Stat(m)
            && m.kind == FileKind::Dir,
        NodeFileType::Whiteout => !says_yes(world, Request::Exists(place)),
        NodeFileType::Symlink => false,
    }
}

/// A child needs a directory built anew exactly if it does not fit.
pub proof fn lemma_fits(world: World, path: Text, child: NodeView)
    ensures
        needs_new_dir(world, path, child) == !fits(world, path, child),
{
}

/// Whether a file or a directory needs a directory built anew is decided by what is at its own path
/// on the device: only a reply that tells the same kind lets it be mounted in place. A whiteout
/// needs one where there is something, and a link always does.
pub proof fn only_the_same_kind_fits(file_type: NodeFileType, path: Text, reply: ReplyView)
    ensures
        file_type == NodeFileType::RegularFile ==> {
            &&& probe_of(file_type, path) == Some(Request::<Text>::Lstat(path))
            &&& !needs_tmpfs(file_type, reply) <==> (reply matches ReplyView::Stat(m)
                && m.kind == FileKind::File)
        },
        file_type == NodeFileType::Directory ==> {
            &&& probe_of(file_type, path) == Some(Request::<Text>::Lstat(path))
            &&& !needs_tmpfs(file_type, reply) <==> (reply matches ReplyView::Stat(m)
                && m.kind == FileKind::Dir)
        },
        file_type == NodeFileType::Whiteout ==> {
            &&& probe_of(file_type, path) == Some(Request::<Text>::Exists(path))
            &&& needs_tmpfs(file_type, reply) <==> reply == ReplyView::Flag(true)
        },
        file_type == NodeFileType::Symlink ==> {
            &&& probe_of(file_type, path) is None
            &&& needs_tmpfs(file_type, reply)
        },
{
}

/// A directory has to be built anew: a module provides it, that has not been done around it
/// already, and it replaces the device's or has a child that does not fit.
pub open spec fn rebuilt(world: World, path: Text, node: NodeView, has_tmpfs: bool) -> bool {
    &&& !has_tmpfs
    &&& node.origin is Some
    &&& node.replace || exists|k: int|
        0 <= k < node.children.len() && !fits(world, path, #[trigger] node.children[k])
}

/// A child has no place in a directory of the device that no module provides: it is marked to be
/// left out, or it does not fit.
pub open spec fn left_out(
    world: World,
    path: Text,
    node: NodeView,
    has_tmpfs: bool,
    k: int,
) -> bool {
    ||| node.children[k].skip
    ||| !has_tmpfs && node.origin is None && !fits(world, path, node.children[k])
}

/// A directory is built anew exactly if it has to be. If no module provides it, just the children
/// that do not fit are marked to be left out. Nothing else of the node is changed.
pub proof fn directories_are_rebuilt_where_something_does_not_fit(
    world: World,
    path: Text,
    node: NodeView,
    has_tmpfs: bool,
    io: Io,
)
    requires
        truthful(world, io, tmpfs_decision(path, node, has_tmpfs, io)),
    ensures
        tmpfs_decision(path, node, has_tmpfs, io).out matches Outcome::Done((create, decided)) ==> {
            &&& create == rebuilt(world, path, node, has_tmpfs)
            &&& decided == (NodeView { children: decided.children, ..node })
            &&& decided.children.len() == node.children.len()
            &&& forall|k: int|
                0 <= k < node.children.len() ==> #[trigger] decided.children[k] == (NodeView {
                    skip: left_out(world, path, node, has_tmpfs, k),
                    ..node.children[k]
                })
        },
{
    decisions_follow_the_device(world, path, node, has_tmpfs, io);
    assert forall|k: int| 0 <= k < node.children.len() implies needs_new_dir(
        world,
        path,
        #[trigger] node.children[k],
    ) == !fits(world, path, node.children[k]) by {
        lemma_fits(world, path, node.children[k]);
    }
    if !has_tmpfs && node.origin is None {
        let marked = marked_from(world, path, node, 0);
        assert(marked.children.len() == node.children.len());
    }
}

/// If the device has nothing at the path of a file or a directory that a module has in a directory
/// of its own, that directory is built anew, unless one around it is.
pub proof fn missing_files_make_a_directory_rebuilt(
    world: World,
    path: Text,
    node: NodeView,
    k: int,
    io: Io,
)
    requires
        truthful(world, io, tmpfs_decision(path, node, false, io)),
        node.origin is Some,
        0 <= k < node.children.len(),
        node.children[k].file_type == NodeFileType::RegularFile || node.children[k].file_type
            == NodeFileType::Directory,
        !(world(Request::Lstat(joined(path, node.children[k].name))) is Stat),
    ensures
        tmpfs_decision(path, node, false, io).out matches Outcome::Done(decision) ==> decision.0,
{
    directories_are_rebuilt_where_something_does_not_fit(world, path, node, false, io);
    assert(!fits(world, path, node.children[k]));
}

} // verus!
