//! What the tree of the modules' files is like.

use vstd::prelude::*;

use crate::bytes::{joined, lossy_text};
use crate::collect::{
    collected, created, gather, gather_into, lemma_collected_gains_nothing,
    lemma_created_gains_nothing, Level,
};
use crate::laws::conversation::{all_replies, lemma_replies_stay};
use crate::laws::reading::{collected_only_reads, created_only_reads, queries};
use crate::node::{distinct, lemma_position, module_node, position, NodeFileType, NodeView};
use crate::protocol::{ask, listing_of, readable, Entry, Io, Outcome, ReplyView, Request, Text};

verus! {

/// A name that does not lead away from the directory that it is joined to.
pub open spec fn relative(name: Text) -> bool {
    !(name.len() > 0 && name[0] == 47)
}

/// A path that starts with another one.
pub open spec fn within(base: Text, path: Text) -> bool {
    base.len() <= path.len() && path.take(base.len() as int) == base
}

/// A reply whose names, as they are and as they read, do not lead away from the directory that
/// they were found in.
pub open spec fn plain_reply(reply: ReplyView) -> bool {
    reply matches ReplyView::Listing(l) ==> forall|j: int|
        0 <= j < l.len() ==> (#[trigger] l[j] matches Some(e) ==> plain_entry(e))
}

/// An entry whose name, as it is and as it reads, does not lead away.
pub open spec fn plain_entry(entry: Entry<Text>) -> bool {
    relative(entry.name) && relative(lossy_text(entry.name))
}

/// The host never names an entry by an absolute path.
pub open spec fn plain_replies(io: Io) -> bool {
    all_replies(io, |r: ReplyView| plain_reply(r))
}

/// A tree that can be mounted without a gap. No two siblings have the same name. What no module
/// provides is a directory that does not hide anything, and stands below nothing that a module
/// provides. Only directories replace, and only directories have children.
pub open spec fn sound(node: NodeView) -> bool
    decreases node,
{
    &&& distinct(node.children)
    &&& node.origin is None ==> node.file_type == NodeFileType::Directory && !node.replace
    &&& node.replace ==> node.file_type == NodeFileType::Directory
    &&& node.file_type != NodeFileType::Directory ==> node.children.len() == 0
    &&& forall|i: int|
        0 <= i < node.children.len() ==> {
            &&& sound(#[trigger] node.children[i])
            &&& node.origin is Some ==> node.children[i].origin is Some
        }
}

/// A directory with a tree that can be mounted without a gap.
pub open spec fn sound_dir(node: NodeView) -> bool {
    sound(node) && node.file_type == NodeFileType::Directory
}

/// All children of a node come from modules.
pub open spec fn owned_children(node: NodeView) -> bool {
    forall|i: int| 0 <= i < node.children.len() ==> (#[trigger] node.children[i]).origin is Some
}

/// No node of a tree is marked to be left out.
pub open spec fn unskipped(node: NodeView) -> bool
    decreases node,
{
    &&& !node.skip
    &&& forall|i: int| 0 <= i < node.children.len() ==> unskipped(#[trigger] node.children[i])
}

/// No name of a tree leads away, and all files come from below `base`.
pub open spec fn from_below(base: Text, node: NodeView) -> bool
    decreases node,
{
    &&& relative(node.name)
    &&& node.origin matches Some(p) ==> within(base, p)
    &&& forall|i: int|
        0 <= i < node.children.len() ==> from_below(base, #[trigger] node.children[i])
}

/// One tree has all that another has, in the same places and from the same modules.
pub open spec fn extends(old_node: NodeView, new_node: NodeView) -> bool
    decreases old_node,
{
    &&& new_node.name == old_node.name
    &&& new_node.file_type == old_node.file_type
    &&& new_node.origin == old_node.origin
    &&& new_node.replace == old_node.replace
    &&& new_node.skip == old_node.skip
    &&& old_node.children.len() <= new_node.children.len()
    &&& forall|i: int|
        0 <= i < old_node.children.len() ==> extends(
            #[trigger] old_node.children[i],
            new_node.children[i],
        )
}

/// There is something to mount: a file, a directory that replaces, or a directory with something
/// to mount in it.
pub open spec fn mountable(node: NodeView) -> bool
    decreases node,
{
    node.file_type == NodeFileType::Directory && !node.replace ==> any_mountable(node.children)
}

/// There is something to mount among several nodes.
pub open spec fn any_mountable(nodes: Seq<NodeView>) -> bool
    decreases nodes,
{
    exists|i: int| 0 <= i < nodes.len() && mountable(#[trigger] nodes[i])
}

/// Joining a name does not lead away from where a path is.
pub proof fn lemma_within_joined(base: Text, path: Text, name: Text)
    requires
        within(base, path),
        relative(name),
    ensures
        within(base, joined(path, name)),
{
    assert(joined(path, name).take(base.len() as int) =~= path.take(base.len() as int));
}

/// The entries of a listing without absolute names have no absolute names.
pub proof fn lemma_plain_listing(reply: ReplyView)
    requires
        plain_reply(reply),
    ensures
        listing_of(reply) matches Ok(entries) ==> forall|j: int|
            0 <= j < entries.len() ==> plain_entry(#[trigger] entries[j]),
{
    match reply {
        ReplyView::Listing(l) => {
            lemma_plain_readable(l);
        },
        _ => {},
    }
}

/// A host that never names an entry by an absolute path does not do so in its next reply.
pub proof fn lemma_plain_ask(io: Io, request: Request<Text>)
    requires
        plain_replies(io),
    ensures
        plain_replies(ask(io, request).io),
        ask(io, request).out matches Outcome::Done(reply) ==> plain_reply(reply),
{
    let run = ask(io, request);
    assert forall|j: int| 0 <= j < run.io.rest.len() implies plain_reply(
        #[trigger] run.io.rest[j],
    ) by {
        assert(plain_reply(io.rest[j + 1]));
    }
    if io.rest.len() > 0 {
        assert(plain_reply(io.rest[0]));
    }
}

/// The readable entries of a listing without absolute names have none.
proof fn lemma_plain_readable(listing: Seq<Option<Entry<Text>>>)
    requires
        forall|j: int|
            0 <= j < listing.len() ==> (#[trigger] listing[j] matches Some(e) ==> plain_entry(e)),
    ensures
        forall|j: int|
            0 <= j < readable(listing).len() ==> plain_entry(#[trigger] readable(listing)[j]),
    decreases listing.len(),
{
    if listing.len() > 0 {
        let init = listing.drop_last();
        assert forall|j: int| 0 <= j < init.len() implies (#[trigger] init[j] matches Some(e)
            ==> plain_entry(e)) by {
            assert(init[j] == listing[j]);
        }
        lemma_plain_readable(init);
        let last = listing[listing.len() - 1];
        assert forall|j: int| 0 <= j < readable(listing).len() implies plain_entry(
            #[trigger] readable(listing)[j],
        ) by {
            if j < readable(init).len() {
                assert(plain_entry(readable(init)[j]));
            } else {
                assert(last matches Some(e) ==> plain_entry(e));
            }
        }
    }
}

/// A tree has all that it has.
pub proof fn lemma_extends_itself(node: NodeView)
    ensures
        extends(node, node),
    decreases node,
{
    assert forall|i: int| 0 <= i < node.children.len() implies extends(
        #[trigger] node.children[i],
        node.children[i],
    ) by {
        lemma_extends_itself(node.children[i]);
    }
}

/// A tree has all that a tree has which it extends.
pub proof fn lemma_extends_further(a: NodeView, b: NodeView, c: NodeView)
    requires
        extends(a, b),
        extends(b, c),
    ensures
        extends(a, c),
    decreases a,
{
    assert forall|i: int| 0 <= i < a.children.len() implies extends(
        #[trigger] a.children[i],
        c.children[i],
    ) by {
        assert(extends(a.children[i], b.children[i]));
        assert(extends(b.children[i], c.children[i]));
        lemma_extends_further(a.children[i], b.children[i], c.children[i]);
    }
}

/// A new node is a file of the module, and only directories replace.
pub proof fn lemma_created_node(name: Text, path: Text, io: Io)
    ensures
        created(name, path, io).out matches Outcome::Done(Some(node)) ==> {
            &&& node == module_node(name, node.file_type, path, node.replace)
            &&& node.replace ==> node.file_type == NodeFileType::Directory
        },
{
}

/// A node keeps what it has when one of its children grows.
pub proof fn lemma_child_grown(node: NodeView, k: int, child: NodeView)
    requires
        0 <= k < node.children.len(),
        extends(node.children[k], child),
    ensures
        ({
            let new_node = NodeView { children: node.children.update(k, child), ..node };
            &&& extends(node, new_node)
            &&& sound(node) && sound(child) ==> sound(new_node)
            &&& owned_children(node) ==> owned_children(new_node)
            &&& unskipped(node) && unskipped(child) ==> unskipped(new_node)
            &&& forall|base: Text|
                #![trigger from_below(base, new_node)]
                from_below(base, node) && from_below(base, child) ==> from_below(base, new_node)
        }),
{
    let children = node.children.update(k, child);
    let new_node = NodeView { children, ..node };
    assert forall|i: int| 0 <= i < node.children.len() implies extends(
        #[trigger] node.children[i],
        children[i],
    ) by {
        lemma_extends_itself(node.children[i]);
    }
    if owned_children(node) {
        assert forall|i: int| 0 <= i < children.len() implies (
        #[trigger] children[i]).origin is Some by {
            assert(node.children[i].origin is Some);
        }
    }
    if sound(node) && sound(child) {
        assert forall|i: int, j: int| 0 <= i < j < children.len() implies (
        #[trigger] children[i]).name != (#[trigger] children[j]).name by {
            assert(node.children[i].name != node.children[j].name);
        }
        assert forall|i: int| 0 <= i < children.len() implies sound(#[trigger] children[i]) && (
        node.origin is Some ==> children[i].origin is Some) by {
            assert(sound(node.children[i]));
        }
    }
    if unskipped(node) && unskipped(child) {
        assert forall|i: int| 0 <= i < children.len() implies unskipped(#[trigger] children[i]) by {
            assert(i != k ==> unskipped(node.children[i]));
        }
    }
    assert forall|base: Text| #![trigger from_below(base, new_node)]
        from_below(base, node) && from_below(base, child) implies from_below(base, new_node) by {
        assert forall|i: int| 0 <= i < children.len() implies from_below(
            base,
            #[trigger] children[i],
        ) by {
            assert(i != k ==> from_below(base, node.children[i]));
        }
    }
}

/// A node keeps what it has when it gets another child of a name that it did not have.
pub proof fn lemma_child_added(node: NodeView, child: NodeView)
    requires
        position(node.children, child.name) is None,
    ensures
        ({
            let new_node = NodeView { children: node.children.push(child), ..node };
            &&& extends(node, new_node)
            &&& sound_dir(node) && sound(child) && child.origin is Some ==> sound(new_node)
            &&& owned_children(node) && child.origin is Some ==> owned_children(new_node)
            &&& unskipped(node) && unskipped(child) ==> unskipped(new_node)
            &&& forall|base: Text|
                #![trigger from_below(base, new_node)]
                from_below(base, node) && from_below(base, child) ==> from_below(base, new_node)
        }),
{
    let children = node.children.push(child);
    let new_node = NodeView { children, ..node };
    lemma_position(node.children, child.name);
    assert forall|i: int| 0 <= i < node.children.len() implies extends(
        #[trigger] node.children[i],
        children[i],
    ) by {
        lemma_extends_itself(node.children[i]);
    }
    if owned_children(node) && child.origin is Some {
        assert forall|i: int| 0 <= i < children.len() implies (
        #[trigger] children[i]).origin is Some by {
            assert(i < node.children.len() ==> node.children[i].origin is Some);
        }
    }
    if sound(node) && sound(child) && child.origin is Some {
        assert forall|i: int, j: int| 0 <= i < j < children.len() implies (
        #[trigger] children[i]).name != (#[trigger] children[j]).name by {
            assert(node.children[i].name != child.name);
            assert(j < node.children.len() ==> node.children[i].name != node.children[j].name);
        }
        assert forall|i: int| 0 <= i < children.len() implies sound(#[trigger] children[i]) && (
        node.origin is Some ==> children[i].origin is Some) by {
            assert(i < node.children.len() ==> sound(node.children[i]));
        }
    }
    if unskipped(node) && unskipped(child) {
        assert forall|i: int| 0 <= i < children.len() implies unskipped(#[trigger] children[i]) by {
            assert(i < node.children.len() ==> unskipped(node.children[i]));
        }
    }
    assert forall|base: Text| #![trigger from_below(base, new_node)]
        from_below(base, node) && from_below(base, child) implies from_below(base, new_node) by {
        assert forall|i: int| 0 <= i < children.len() implies from_below(
            base,
            #[trigger] children[i],
        ) by {
            assert(i < node.children.len() ==> from_below(base, node.children[i]));
        }
    }
}

/// What collecting does to a node: nothing is lost, what was sound stays sound, nothing is marked
/// to be left out, and the files are from below where the collected directory is.
pub open spec fn grown(
    base: Text,
    dir: Text,
    io: Io,
    old_node: NodeView,
    new_node: NodeView,
) -> bool {
    &&& extends(old_node, new_node)
    &&& sound_dir(old_node) ==> sound_dir(new_node)
    &&& owned_children(old_node) ==> owned_children(new_node)
    &&& unskipped(old_node) ==> unskipped(new_node)
    &&& from_below(base, old_node) && within(base, dir) && plain_replies(io) ==> from_below(
        base,
        new_node,
    )
}

/// What the told result of collecting means: something to mount was found exactly where the tree
/// has something to mount that it may not have had before.
pub open spec fn counted(old_node: NodeView, had: bool, new_node: NodeView, has: bool) -> bool {
    &&& had ==> has
    &&& any_mountable(old_node.children) ==> any_mountable(new_node.children)
    &&& has ==> had || any_mountable(new_node.children)
    &&& any_mountable(new_node.children) ==> has || any_mountable(old_node.children)
}

/// What filling a child says of there being something to mount.
proof fn lemma_counted_child(nodes: Seq<NodeView>, k: int, child: NodeView, has: bool)
    requires
        0 <= k < nodes.len(),
        nodes[k].file_type == NodeFileType::Directory,
        extends(nodes[k], child),
        counted(nodes[k], false, child, has),
    ensures
        any_mountable(nodes) ==> any_mountable(nodes.update(k, child)),
        has || child.replace ==> any_mountable(nodes.update(k, child)),
        any_mountable(nodes.update(k, child)) ==> any_mountable(nodes) || has || child.replace,
{
    let new_nodes = nodes.update(k, child);
    if has || child.replace {
        assert(mountable(new_nodes[k]));
    }
    if any_mountable(nodes) {
        let i = choose|i: int| 0 <= i < nodes.len() && mountable(#[trigger] nodes[i]);
        assert(mountable(new_nodes[i]));
    }
    if any_mountable(new_nodes) {
        let i = choose|i: int| 0 <= i < new_nodes.len() && mountable(#[trigger] new_nodes[i]);
        assert(i != k ==> mountable(nodes[i]));
        assert(mountable(nodes[k]) ==> any_mountable(nodes));
    }
}

/// What a new child says of there being something to mount.
proof fn lemma_counted_push(nodes: Seq<NodeView>, node: NodeView)
    ensures
        any_mountable(nodes) ==> any_mountable(nodes.push(node)),
        any_mountable(nodes.push(node)) ==> any_mountable(nodes) || mountable(node),
{
    let new_nodes = nodes.push(node);
    if any_mountable(nodes) {
        let i = choose|i: int| 0 <= i < nodes.len() && mountable(#[trigger] nodes[i]);
        assert(mountable(new_nodes[i]));
    }
    if any_mountable(new_nodes) {
        let i = choose|i: int| 0 <= i < new_nodes.len() && mountable(#[trigger] new_nodes[i]);
        assert(i < nodes.len() ==> mountable(nodes[i]));
    }
}

/// Collecting a directory loses nothing that was collected before: where two modules have a file
/// of the same name, that of the first one stays. The tree stays sound.
pub proof fn collected_grows(base: Text, node: NodeView, dir: Text, io: Io)
    ensures
        collected(node, dir, io).out matches Outcome::Done((new_node, has)) ==> {
            &&& grown(base, dir, io, node, new_node)
            &&& counted(node, false, new_node, has)
        },
    decreases io.rest.len(), 0nat, 0nat,
{
    reveal(collected);
    reveal(gather);
    let run = ask(io, Request::ListDir(dir));
    match run.out {
        Outcome::Done(reply) => match listing_of(reply) {
            Ok(entries) => {
                let level = Level { node, dir, entries, next: 0, has_file: false };
                gather_grows(base, level, run.io);
                if plain_replies(io) {
                    lemma_plain_ask(io, Request::ListDir(dir));
                    lemma_plain_listing(reply);
                }
            },
            Err(_) => {},
        },
        _ => {},
    }
}

/// The entries of a level have no absolute names, and neither have replies to come.
spec fn plain_level(base: Text, level: Level, io: Io) -> bool {
    &&& plain_replies(io)
    &&& within(base, level.dir)
    &&& forall|j: int| 0 <= j < level.entries.len() ==> plain_entry(#[trigger] level.entries[j])
}

/// What collecting the rest of a level does to its node.
spec fn level_grown(base: Text, level: Level, io: Io, new_node: NodeView, has: bool) -> bool {
    &&& extends(level.node, new_node)
    &&& sound_dir(level.node) ==> sound_dir(new_node)
    &&& owned_children(level.node) ==> owned_children(new_node)
    &&& unskipped(level.node) ==> unskipped(new_node)
    &&& from_below(base, level.node) && plain_level(base, level, io) ==> from_below(base, new_node)
    &&& counted(level.node, level.has_file, new_node, has)
}

/// Collecting the entries that are still to come loses nothing.
proof fn gather_grows(base: Text, level: Level, io: Io)
    ensures
        gather(level, io).out matches Outcome::Done((new_node, has)) ==> level_grown(
            base,
            level,
            io,
            new_node,
            has,
        ),
    decreases io.rest.len(), 1nat, 4 * level.left(),
{
    reveal(gather);
    if level.next < 0 || level.next >= level.entries.len() {
        lemma_extends_itself(level.node);
    } else {
        lemma_position(level.node.children, level.name());
        match position(level.node.children, level.name()) {
            Some(k) => {
                gather_into_grows(base, level, k, io);
            },
            None => {
                let entry = level.entries[level.next];
                let path = joined(level.dir, entry.name);
                let run = created(level.name(), path, io);
                created_only_reads(level.name(), path, io);
                lemma_created_gains_nothing(level.name(), path, io);
                lemma_created_node(level.name(), path, io);
                if plain_replies(io) {
                    lemma_replies_stay(io, run, queries(), |r: ReplyView| plain_reply(r));
                }
                match run.out {
                    Outcome::Done(None) => {
                        gather_grows(base, level.passed(false), run.io);
                    },
                    Outcome::Done(Some(node)) => {
                        let next = level.with(level.node.children.push(node));
                        lemma_child_added(level.node, node);
                        lemma_counted_push(level.node.children, node);
                        gather_into_grows(
                            base,
                            next,
                            level.node.children.len() as int,
                            run.io,
                        );
                        match gather(level, io).out {
                            Outcome::Done((new_node, has)) => {
                                assert(level_grown(base, next, run.io, new_node, has));
                                lemma_extends_further(level.node, next.node, new_node);
                                if from_below(base, level.node) && plain_level(base, level, io) {
                                    assert(plain_entry(entry));
                                    lemma_within_joined(base, level.dir, entry.name);
                                    assert(from_below(base, node));
                                    assert(from_below(base, next.node));
                                }
                                assert(!any_mountable(node.children));
                            },
                            _ => {},
                        }
                    },
                    _ => {},
                }
            },
        }
    }
}

/// Going on with the child for an entry loses nothing.
proof fn gather_into_grows(base: Text, level: Level, k: int, io: Io)
    requires
        0 <= level.next < level.entries.len(),
        0 <= k < level.node.children.len(),
    ensures
        gather_into(level, k, io).out matches Outcome::Done((new_node, has)) ==> level_grown(
            base,
            level,
            io,
            new_node,
            has,
        ) && (level.node.children[k].file_type != NodeFileType::Directory
            || level.node.children[k].replace ==> has),
    decreases io.rest.len(), 1nat, 4 * level.left() - 2,
{
    reveal(gather);
    reveal(collected);
    let child = level.node.children[k];
    if child.file_type == NodeFileType::Directory {
        let dir = joined(level.dir, child.name);
        let run = collected(child, dir, io);
        collected_only_reads(child, dir, io);
        collected_grows(base, child, dir, io);
        lemma_collected_gains_nothing(child, dir, io);
        if plain_replies(io) {
            lemma_replies_stay(io, run, queries(), |r: ReplyView| plain_reply(r));
        }
        match run.out {
            Outcome::Done(filled) => {
                let back = level.with(level.node.children.remove(k)).passed(false);
                let next = back.with(back.node.children.insert(k, filled.0));
                let has_file = next.has_file || filled.1 || filled.0.replace;
                let next = Level { has_file, ..next };
                assert(next.node.children =~= level.node.children.update(k, filled.0));
                lemma_child_grown(level.node, k, filled.0);
                lemma_counted_child(level.node.children, k, filled.0, filled.1);
                gather_grows(base, next, run.io);
                match gather(next, run.io).out {
                    Outcome::Done((new_node, has)) => {
                        lemma_extends_further(level.node, next.node, new_node);
                        if sound(level.node) {
                            assert(sound(child));
                        }
                        if unskipped(level.node) {
                            assert(unskipped(child));
                        }
                        if from_below(base, level.node) && plain_level(base, level, io) {
                            assert(from_below(base, child));
                            lemma_within_joined(base, level.dir, child.name);
                            assert(from_below(base, next.node));
                        }
                    },
                    _ => {},
                }
            },
            _ => {},
        }
    } else {
        gather_grows(base, level.passed(true), io);
        assert(mountable(child));
        assert(any_mountable(level.node.children));
    }
}

} // verus!
