//! Everything in a directory of a module is collected, however deep.

use vstd::prelude::*;

use crate::bytes::{joined, lossy_text};
use crate::collect::collected;
use crate::laws::device::{lemma_readable_kept, lemma_replaces_device, listed, replaces_device};
use crate::laws::finding::{
    collecting_finds_what_is_there, covers, covers_entry, made_in, made_of_entry, made_of_nth,
    stays_or_stems, stems, truthful, World,
};
use crate::laws::found::{clear_listing, clear_names};
use crate::node::{NodeFileType, NodeView};
use crate::protocol::{readable, FileKind, Io, Metadata, Outcome, ReplyView, Request, Text};

verus! {

/// A node is that of a file which a module keeps at `path`, whatever is below it.
pub open spec fn node_of_file(
    world: World,
    name: Text,
    path: Text,
    metadata: Metadata,
    node: NodeView,
) -> bool {
    &&& node.name == name
    &&& node.origin == Some(path)
    &&& !node.skip
    &&& node.file_type == match metadata.kind {
        FileKind::File => NodeFileType::RegularFile,
        FileKind::Dir => NodeFileType::Directory,
        FileKind::Symlink => NodeFileType::Symlink,
        FileKind::CharDevice => NodeFileType::Whiteout,
        FileKind::Other => NodeFileType::Whiteout,
    }
    &&& node.replace <==> metadata.kind == FileKind::Dir && replaces_device(world, path)
}

/// Everything in the directory `dir` that the host can look at has a node of its own below another,
/// down to `depth` levels.
pub open spec fn gathered(world: World, dir: Text, node: NodeView, depth: nat) -> bool
    decreases depth,
{
    depth > 0 ==> forall|i: int|
        (#[trigger] listed(world, dir, i)) is Some && world(
            Request::Lstat(joined(dir, listed(world, dir, i)->0.name)),
        ) is Stat ==> exists|c: int|
            gathered_at(world, dir, listed(world, dir, i)->0.name, #[trigger] node.children[c])
                && 0 <= c < node.children.len() && (node.children[c].file_type
                == NodeFileType::Directory ==> gathered(
                world,
                joined(dir, node.children[c].name),
                node.children[c],
                (depth - 1) as nat,
            ))
}

/// A node is that of the entry of a name in the directory `dir`.
pub open spec fn gathered_at(world: World, dir: Text, name: Text, node: NodeView) -> bool {
    let path = joined(dir, name);
    world(Request::Lstat(path)) matches ReplyView::Stat(metadata) && node_of_file(
        world,
        lossy_text(name),
        path,
        metadata,
        node,
    )
}

/// What covers a directory and was made of it has gathered everything in it.
proof fn lemma_gathered(world: World, dir: Text, fresh: NodeView, node: NodeView, depth: nat)
    requires
        clear_names(world),
        covers(world, dir, node),
        fresh.children.len() == 0,
        node == fresh || stems(world, dir, fresh, node),
    ensures
        gathered(world, dir, node, depth),
    decreases depth,
{
    if depth > 0 {
        assert forall|i: int|
            (#[trigger] listed(world, dir, i)) is Some && world(
                Request::Lstat(joined(dir, listed(world, dir, i)->0.name)),
            ) is Stat implies exists|c: int|
            gathered_at(world, dir, listed(world, dir, i)->0.name, #[trigger] node.children[c])
                && 0 <= c < node.children.len() && (node.children[c].file_type
                == NodeFileType::Directory ==> gathered(
                world,
                joined(dir, node.children[c].name),
                node.children[c],
                (depth - 1) as nat,
            )) by {
            let entry = listed(world, dir, i)->0;
            let l = world(Request::ListDir(dir))->Listing_0;
            let entries = readable(l);
            let k = lemma_readable_kept(l, i);
            let path = joined(dir, entry.name);
            assert(covers_entry(world, dir, entries[k], node));
            assert(made_in(world, lossy_text(entry.name), path) is Some);
            let c = choose|c: int|
                0 <= c < node.children.len() && (#[trigger] node.children[c]).name == lossy_text(
                    entry.name,
                ) && (node.children[c].file_type == NodeFileType::Directory ==> covers(
                    world,
                    joined(dir, node.children[c].name),
                    node.children[c],
                ));
            let child = node.children[c];
            assert(made_of_entry(world, dir, child));
            let j = choose|j: int| #[trigger] made_of_nth(world, dir, j) is Some && stays_or_stems(
                world,
                dir,
                made_of_nth(world, dir, j)->0,
                child,
            );
            let made = made_of_nth(world, dir, j)->0;
            assert(made.name == lossy_text(entries[j].name));
            assert(j == k) by {
                assert(clear_listing(world, dir));
                if j < k {
                    assert(lossy_text(entries[j].name) != lossy_text(entries[k].name));
                }
                if k < j {
                    assert(lossy_text(entries[k].name) != lossy_text(entries[j].name));
                }
            }
            lemma_replaces_device(world, path);
            assert(gathered_at(world, dir, entry.name, child));
            if child.file_type == NodeFileType::Directory {
                lemma_gathered(
                    world,
                    joined(dir, child.name),
                    made,
                    child,
                    (depth - 1) as nat,
                );
            }
        }
    }
}

/// A directory of a module that is collected afresh gives a node to everything in it that the host
/// can look at, however deep: each node has the name and the kind of its file and remembers where
/// the file is, and a directory replaces the device's exactly if it is marked so.
pub proof fn everything_is_gathered(
    world: World,
    node: NodeView,
    dir: Text,
    depth: nat,
    io: Io,
)
    requires
        clear_names(world),
        node.children.len() == 0,
        truthful(world, io, collected(node, dir, io)),
    ensures
        collected(node, dir, io).out matches Outcome::Done((filled, _)) ==> gathered(
            world,
            dir,
            filled,
            depth,
        ),
{
    collecting_finds_what_is_there(world, node, dir, io);
    match collected(node, dir, io).out {
        Outcome::Done((filled, _)) => {
            lemma_gathered(world, dir, node, filled, depth);
        },
        _ => {},
    }
}

} // verus!
