//! Collecting depends on what is there alone, and doing it again changes nothing.

use vstd::prelude::*;

use crate::bytes::{joined, lossy_text};
use crate::collect::{
    collected, created, gather, gather_back, gather_into, gather_new,
    lemma_collected_gains_nothing, lemma_created_gains_nothing, no_gain, Level,
};
use crate::laws::conversation::lemma_proceeds;
use crate::laws::finding::{
    collecting_finds_what_is_there, lemma_truthful_ask, lemma_truthful_parts, made_in,
    new_nodes_are_as_found, stems, truthful, World,
};
use crate::laws::reading::{
    collected_only_reads, created_only_reads, gather_into_only_reads, gather_only_reads, queries,
};
use crate::node::{lemma_position, lemma_position_is, position, NodeFileType, NodeView};
use crate::protocol::{ask, listing_of, Entry, Error, Io, Outcome, Request, Run, Text};

verus! {

/// The directory `dir` has nothing to add to a node.
pub open spec fn settled(world: World, dir: Text, node: NodeView) -> bool
    decreases node, 1nat,
{
    listing_of(world(Request::ListDir(dir))) matches Ok(entries) && forall|j: int|
        0 <= j < entries.len() ==> entry_settled(world, dir, #[trigger] entries[j], node)
}

/// An entry of the directory `dir` has nothing to add to a node: there is a child of its name, to
/// which the directory of that name has nothing to add, or the host cannot look at the file.
pub open spec fn entry_settled(world: World, dir: Text, entry: Entry<Text>, node: NodeView) -> bool
    decreases node, 0nat,
{
    let name = lossy_text(entry.name);
    match position(node.children, name) {
        Some(k) => 0 <= k < node.children.len() && node.children[k].file_type
            == NodeFileType::Directory ==> settled(world, joined(dir, name), node.children[k]),
        None => made_in(world, name, joined(dir, entry.name)) is None,
    }
}

/// There is something to mount among the children that stand for entries of the directory `dir`.
pub open spec fn told(world: World, dir: Text, node: NodeView) -> bool
    decreases node, 1nat,
{
    listing_of(world(Request::ListDir(dir))) matches Ok(entries) && exists|j: int|
        0 <= j < entries.len() && entry_told(world, dir, #[trigger] entries[j], node)
}

/// The child that stands for an entry of the directory `dir` is something to mount.
pub open spec fn entry_told(world: World, dir: Text, entry: Entry<Text>, node: NodeView) -> bool
    decreases node, 0nat,
{
    match position(node.children, lossy_text(entry.name)) {
        Some(k) => 0 <= k < node.children.len() && child_told(world, dir, node.children[k]),
        None => false,
    }
}

/// A child is something to mount: it is no directory, or it replaces the device's directory, or it
/// has something to mount.
pub open spec fn child_told(world: World, dir: Text, child: NodeView) -> bool
    decreases child, 2nat,
{
    ||| child.file_type != NodeFileType::Directory
    ||| child.replace
    ||| told(world, joined(dir, child.name), child)
}

/// Some entry of the directory `dir` among those from `from` up to `to` stands for something to
/// mount.
spec fn told_between(
    world: World,
    dir: Text,
    entries: Seq<Entry<Text>>,
    from: int,
    to: int,
    node: NodeView,
) -> bool {
    exists|j: int|
        from <= j < to && 0 <= j < entries.len() && entry_told(
            world,
            dir,
            #[trigger] entries[j],
            node,
        )
}

/// A level whose directory has the entries that it goes through.
spec fn faithful(world: World, level: Level) -> bool {
    listing_of(world(Request::ListDir(level.dir))) == Ok::<Seq<Entry<Text>>, Error<Text>>(
        level.entries,
    )
}

/// Collecting a directory that has nothing to add to a node leaves the node as it is.
pub proof fn settled_directories_add_nothing(world: World, node: NodeView, dir: Text, io: Io)
    requires
        settled(world, dir, node),
        truthful(world, io, collected(node, dir, io)),
    ensures
        match collected(node, dir, io).out {
            Outcome::Done(result) => result == (node, told(world, dir, node)),
            Outcome::Fail(_) => false,
            Outcome::Waiting => true,
        },
    decreases io.rest.len(), 0nat, 0nat,
{
    reveal(collected);
    reveal(gather);
    let whole = collected(node, dir, io);
    let request = Request::ListDir(dir);
    let run = ask(io, request);
    match run.out {
        Outcome::Done(reply) => {
            match listing_of(reply) {
                Ok(entries) => {
                    let level = Level { node, dir, entries, next: 0, has_file: false };
                    assert(whole == gather(level, run.io));
                    gather_only_reads(level, run.io);
                    lemma_truthful_ask(world, io, request, whole, queries());
                    lemma_gather_again(world, level, run.io);
                    let n = entries.len() as int;
                    assert(told_between(world, dir, entries, 0, n, node) == told(world, dir, node));
                },
                Err(_) => {
                    assert(whole.io.asked[io.asked.len() as int] == request);
                },
            }
        },
        _ => {},
    }
}

/// What is known of the rest of a level that has nothing to add.
spec fn added_nothing(world: World, level: Level, run: Run<(NodeView, bool)>) -> bool {
    match run.out {
        Outcome::Done((node, has_file)) => {
            let n = level.entries.len() as int;
            &&& node == level.node
            &&& has_file == (level.has_file || told_between(
                world,
                level.dir,
                level.entries,
                level.next,
                n,
                level.node,
            ))
        },
        Outcome::Fail(_) => false,
        Outcome::Waiting => true,
    }
}

/// The entries that are still to come have nothing to add.
proof fn lemma_gather_again(world: World, level: Level, io: Io)
    requires
        0 <= level.next,
        settled(world, level.dir, level.node),
        faithful(world, level),
        truthful(world, io, gather(level, io)),
    ensures
        added_nothing(world, level, gather(level, io)),
    decreases io.rest.len(), 1nat, 4 * level.left(),
{
    reveal(gather);
    let whole = gather(level, io);
    if level.next < level.entries.len() {
        let entry = level.entries[level.next];
        let entries = listing_of(world(Request::ListDir(level.dir)))->Ok_0;
        assert(entry_settled(world, level.dir, entries[level.next], level.node));
        lemma_position(level.node.children, level.name());
        match position(level.node.children, level.name()) {
            Some(k) => {
                assert(whole == gather_into(level, k, io));
                lemma_gather_into_again(world, level, k, io);
            },
            None => {
                let path = joined(level.dir, entry.name);
                let run = created(level.name(), path, io);
                assert(whole == gather_new(level, run));
                created_only_reads(level.name(), path, io);
                lemma_created_gains_nothing(level.name(), path, io);
                match run.out {
                    Outcome::Done(None) => {
                        let next = level.passed(false);
                        assert(whole == gather(next, run.io));
                        gather_only_reads(next, run.io);
                        lemma_truthful_parts(world, io, run, whole, queries());
                        lemma_gather_again(world, next, run.io);
                        lemma_told_next(world, level);
                    },
                    Outcome::Done(Some(child)) => {
                        let k = level.node.children.len() as int;
                        let next = level.with(level.node.children.push(child));
                        assert(whole == gather_into(next, k, run.io));
                        gather_into_only_reads(next, k, run.io);
                        lemma_truthful_parts(world, io, run, whole, queries());
                        new_nodes_are_as_found(world, level.name(), path, io);
                        assert(false);
                    },
                    _ => {},
                }
            },
        }
    }
}

/// Whether there is something to mount from the next entry on.
proof fn lemma_told_next(world: World, level: Level)
    requires
        0 <= level.next < level.entries.len(),
    ensures
        told_between(
            world,
            level.dir,
            level.entries,
            level.next,
            level.entries.len() as int,
            level.node,
        ) == (entry_told(world, level.dir, level.entries[level.next], level.node) || told_between(
            world,
            level.dir,
            level.entries,
            level.next + 1,
            level.entries.len() as int,
            level.node,
        )),
{
    let n = level.entries.len() as int;
    if told_between(world, level.dir, level.entries, level.next, n, level.node) {
        let j = choose|j: int|
            level.next <= j < n && 0 <= j < level.entries.len() && entry_told(
                world,
                level.dir,
                #[trigger] level.entries[j],
                level.node,
            );
        if j > level.next {
            assert(level.next + 1 <= j < n);
        }
    }
}

/// The next entry and those behind it have nothing to add.
proof fn lemma_gather_into_again(world: World, level: Level, k: int, io: Io)
    requires
        0 <= level.next < level.entries.len(),
        position(level.node.children, level.name()) == Some(k),
        settled(world, level.dir, level.node),
        faithful(world, level),
        truthful(world, io, gather_into(level, k, io)),
    ensures
        added_nothing(world, level, gather_into(level, k, io)),
    decreases io.rest.len(), 1nat, 4 * level.left() - 2,
{
    reveal(gather);
    reveal(collected);
    lemma_position(level.node.children, level.name());
    lemma_told_next(world, level);
    let whole = gather_into(level, k, io);
    let child = level.node.children[k];
    let entries = listing_of(world(Request::ListDir(level.dir)))->Ok_0;
    assert(entry_settled(world, level.dir, entries[level.next], level.node));
    if child.file_type == NodeFileType::Directory {
        let dir = joined(level.dir, child.name);
        let run = collected(child, dir, io);
        let back = level.with(level.node.children.remove(k)).passed(false);
        collected_only_reads(child, dir, io);
        lemma_collected_gains_nothing(child, dir, io);
        assert(no_gain(io, run) == run);
        assert(whole == gather_back(back, k, run));
        match run.out {
            Outcome::Done(filled) => {
                let next = back.with(back.node.children.insert(k, filled.0));
                let has_file = next.has_file || filled.1 || filled.0.replace;
                let next = Level { has_file, ..next };
                assert(whole == gather(next, run.io));
                gather_only_reads(next, run.io);
                lemma_truthful_parts(world, io, run, whole, queries());
                settled_directories_add_nothing(world, child, dir, io);
                assert(next.node.children =~= level.node.children);
                lemma_gather_again(world, next, run.io);
                assert(child_told(world, level.dir, child) == (filled.1 || filled.0.replace));
            },
            _ => {
                settled_directories_add_nothing(world, child, dir, io);
            },
        }
    } else {
        let next = level.passed(true);
        assert(whole == gather(next, io));
        lemma_gather_again(world, next, io);
    }
}

/// A child keeps its place when another one of its name takes it.
proof fn lemma_position_update(nodes: Seq<NodeView>, k: int, node: NodeView, name: Text)
    requires
        0 <= k < nodes.len(),
        node.name == nodes[k].name,
    ensures
        position(nodes.update(k, node), name) == position(nodes, name),
{
    let new = nodes.update(k, node);
    lemma_position(nodes, name);
    lemma_position(new, name);
    assert(forall|i: int|
        0 <= i < nodes.len() ==> (#[trigger] new[i]).name == nodes[i].name);
    match position(nodes, name) {
        Some(m) => {
            assert(new[m].name == name);
            assert forall|j: int| 0 <= j < m implies (#[trigger] new[j]).name != name by {
                assert(nodes[j].name != name);
            }
            lemma_position_is(new, name, m);
        },
        None => {
            match position(new, name) {
                Some(m) => {
                    assert(nodes[m].name == name);
                },
                None => {},
            }
        },
    }
}

/// A child keeps its place when one of another name comes behind it.
proof fn lemma_position_push(nodes: Seq<NodeView>, node: NodeView, name: Text)
    requires
        node.name != name,
    ensures
        position(nodes.push(node), name) == position(nodes, name),
{
    let new = nodes.push(node);
    lemma_position(nodes, name);
    lemma_position(new, name);
    match position(nodes, name) {
        Some(m) => {
            assert(new[m].name == name);
            assert forall|j: int| 0 <= j < m implies (#[trigger] new[j]).name != name by {
                assert(nodes[j].name != name);
            }
            lemma_position_is(new, name, m);
        },
        None => {
            match position(new, name) {
                Some(m) => {
                    assert(nodes[m].name == name);
                },
                None => {},
            }
        },
    }
}

/// Some entry before `to` whose name is another one stands for something to mount.
spec fn others_told(
    world: World,
    dir: Text,
    entries: Seq<Entry<Text>>,
    to: int,
    name: Text,
    node: NodeView,
) -> bool {
    exists|j: int|
        0 <= j < to && j < entries.len() && lossy_text((#[trigger] entries[j]).name) != name
            && entry_told(world, dir, entries[j], node)
}

/// The entries that have been dealt with have nothing more to add, and it is known whether they
/// stand for something to mount.
spec fn gone_through(world: World, level: Level) -> bool {
    &&& forall|j: int|
        0 <= j < level.next && j < level.entries.len() ==> entry_settled(
            world,
            level.dir,
            #[trigger] level.entries[j],
            level.node,
        )
    &&& level.has_file == told_between(
        world,
        level.dir,
        level.entries,
        0,
        level.next,
        level.node,
    )
}

/// As before, but for the entries of one name, which the child at `k` stands for.
spec fn others_gone_through(world: World, level: Level, k: int) -> bool {
    let child = level.node.children[k];
    let others = others_told(
        world,
        level.dir,
        level.entries,
        level.next,
        level.name(),
        level.node,
    );
    &&& forall|j: int|
        0 <= j < level.next && j < level.entries.len() && lossy_text(
            (#[trigger] level.entries[j]).name,
        ) != level.name() ==> entry_settled(world, level.dir, level.entries[j], level.node)
    &&& others ==> level.has_file
    &&& level.has_file ==> others || {
        &&& child_told(world, level.dir, child)
        &&& child.file_type == NodeFileType::Directory ==> settled(
            world,
            joined(level.dir, child.name),
            child,
        )
    }
}

/// What has been gone through has been but for the entries of one name.
proof fn lemma_others_gone_through(world: World, level: Level, k: int)
    requires
        0 <= level.next < level.entries.len(),
        position(level.node.children, level.name()) == Some(k),
        gone_through(world, level),
    ensures
        others_gone_through(world, level, k),
{
    lemma_position(level.node.children, level.name());
    if level.has_file {
        let j = choose|j: int|
            0 <= j < level.next && 0 <= j < level.entries.len() && entry_told(
                world,
                level.dir,
                #[trigger] level.entries[j],
                level.node,
            );
        assert(entry_settled(world, level.dir, level.entries[j], level.node));
    }
    if others_told(world, level.dir, level.entries, level.next, level.name(), level.node) {
        let j = choose|j: int|
            0 <= j < level.next && j < level.entries.len() && lossy_text(
                (#[trigger] level.entries[j]).name,
            ) != level.name() && entry_told(world, level.dir, level.entries[j], level.node);
        assert(0 <= j < level.next);
    }
}

/// A new child concerns the entries of its name alone.
proof fn lemma_others_pushed(world: World, level: Level, child: NodeView)
    requires
        0 <= level.next < level.entries.len(),
        position(level.node.children, level.name()) is None,
        child.name == level.name(),
        gone_through(world, level),
    ensures
        position(level.node.children.push(child), level.name()) == Some(
            level.node.children.len() as int,
        ),
        others_gone_through(
            world,
            level.with(level.node.children.push(child)),
            level.node.children.len() as int,
        ),
{
    let n = level.node.children.len() as int;
    let next = level.with(level.node.children.push(child));
    lemma_position(level.node.children, level.name());
    assert(next.node.children[n].name == level.name());
    lemma_position_is(next.node.children, level.name(), n);
    assert forall|j: int|
        0 <= j < level.next && j < level.entries.len() && lossy_text(
            (#[trigger] level.entries[j]).name,
        ) != level.name() implies {
        &&& entry_settled(world, level.dir, level.entries[j], next.node)
        &&& entry_told(world, level.dir, level.entries[j], next.node) == entry_told(
            world,
            level.dir,
            level.entries[j],
            level.node,
        )
    } by {
        let name = lossy_text(level.entries[j].name);
        lemma_position(level.node.children, name);
        lemma_position_push(level.node.children, child, name);
        assert(entry_settled(world, level.dir, level.entries[j], level.node));
    }
    if level.has_file {
        let j = choose|j: int|
            0 <= j < level.next && 0 <= j < level.entries.len() && entry_told(
                world,
                level.dir,
                #[trigger] level.entries[j],
                level.node,
            );
        assert(lossy_text(level.entries[j].name) != level.name());
        assert(entry_told(world, level.dir, level.entries[j], next.node));
    }
    if others_told(world, level.dir, level.entries, level.next, level.name(), next.node) {
        let j = choose|j: int|
            0 <= j < level.next && j < level.entries.len() && lossy_text(
                (#[trigger] level.entries[j]).name,
            ) != level.name() && entry_told(world, level.dir, level.entries[j], next.node);
        assert(entry_told(world, level.dir, level.entries[j], level.node));
    }
}

/// An entry has been gone through when its child has been filled.
proof fn lemma_filled(world: World, level: Level, k: int, child: NodeView, has: bool)
    requires
        0 <= level.next < level.entries.len(),
        position(level.node.children, level.name()) == Some(k),
        others_gone_through(world, level, k),
        child.name == level.node.children[k].name,
        child.file_type == level.node.children[k].file_type,
        child.file_type == NodeFileType::Directory ==> settled(
            world,
            joined(level.dir, child.name),
            child,
        ),
        has == child_told(world, level.dir, child),
        child.file_type != NodeFileType::Directory || settled(
            world,
            joined(level.dir, child.name),
            level.node.children[k],
        ) ==> child == level.node.children[k],
    ensures
        gone_through(
            world,
            level.with(level.node.children.update(k, child)).passed(has),
        ),
{
    lemma_position(level.node.children, level.name());
    let next = level.with(level.node.children.update(k, child)).passed(has);
    assert(next.node.children[k] == child);
    assert forall|j: int| 0 <= j <= level.next implies {
        &&& entry_settled(world, level.dir, #[trigger] level.entries[j], next.node)
        &&& lossy_text(level.entries[j].name) == level.name() ==> entry_told(
            world,
            level.dir,
            level.entries[j],
            next.node,
        ) == has
        &&& lossy_text(level.entries[j].name) != level.name() ==> entry_told(
            world,
            level.dir,
            level.entries[j],
            next.node,
        ) == entry_told(world, level.dir, level.entries[j], level.node)
    } by {
        let name = lossy_text(level.entries[j].name);
        lemma_position(level.node.children, name);
        lemma_position_update(level.node.children, k, child, name);
    }
    let n = next.next;
    if next.has_file {
        if has {
            assert(entry_told(world, level.dir, level.entries[level.next], next.node));
        } else if others_told(
            world,
            level.dir,
            level.entries,
            level.next,
            level.name(),
            level.node,
        ) {
            let j = choose|j: int|
                0 <= j < level.next && j < level.entries.len() && lossy_text(
                    (#[trigger] level.entries[j]).name,
                ) != level.name() && entry_told(world, level.dir, level.entries[j], level.node);
            assert(entry_told(world, level.dir, level.entries[j], next.node));
        } else {
            assert(child == level.node.children[k]);
        }
        assert(told_between(world, level.dir, level.entries, 0, n, next.node));
    }
    if told_between(world, level.dir, level.entries, 0, n, next.node) {
        let j = choose|j: int|
            0 <= j < n && 0 <= j < level.entries.len() && entry_told(
                world,
                level.dir,
                #[trigger] level.entries[j],
                next.node,
            );
        if lossy_text(level.entries[j].name) != level.name() {
            assert(j < level.next);
            assert(others_told(
                world,
                level.dir,
                level.entries,
                level.next,
                level.name(),
                level.node,
            ));
        }
    }
}

/// A directory that has been collected has nothing more to add, and what was told of it is known.
pub proof fn collected_directories_are_settled(world: World, node: NodeView, dir: Text, io: Io)
    requires
        truthful(world, io, collected(node, dir, io)),
    ensures
        collected(node, dir, io).out matches Outcome::Done((new_node, has_file)) ==> {
            &&& settled(world, dir, new_node)
            &&& has_file == told(world, dir, new_node)
        },
    decreases io.rest.len(), 0nat, 0nat,
{
    reveal(collected);
    reveal(gather);
    let whole = collected(node, dir, io);
    let request = Request::ListDir(dir);
    let run = ask(io, request);
    match run.out {
        Outcome::Done(reply) => match listing_of(reply) {
            Ok(entries) => {
                let level = Level { node, dir, entries, next: 0, has_file: false };
                assert(whole == gather(level, run.io));
                gather_only_reads(level, run.io);
                lemma_truthful_ask(world, io, request, whole, queries());
                lemma_gather_settles(world, level, run.io);
            },
            Err(_) => {},
        },
        _ => {},
    }
}

/// What is known of a level that has been gone through.
spec fn all_settled(world: World, level: Level, run: Run<(NodeView, bool)>) -> bool {
    run.out matches Outcome::Done((node, has_file)) ==> {
        &&& settled(world, level.dir, node)
        &&& has_file == told(world, level.dir, node)
    }
}

/// The entries that are still to come have nothing more to add in the end.
proof fn lemma_gather_settles(world: World, level: Level, io: Io)
    requires
        0 <= level.next <= level.entries.len(),
        faithful(world, level),
        gone_through(world, level),
        truthful(world, io, gather(level, io)),
    ensures
        all_settled(world, level, gather(level, io)),
    decreases io.rest.len(), 1nat, 4 * level.left(),
{
    reveal(gather);
    let whole = gather(level, io);
    if level.next < level.entries.len() {
        let entry = level.entries[level.next];
        lemma_position(level.node.children, level.name());
        match position(level.node.children, level.name()) {
            Some(k) => {
                assert(whole == gather_into(level, k, io));
                lemma_others_gone_through(world, level, k);
                lemma_gather_into_settles(world, level, k, io);
            },
            None => {
                let path = joined(level.dir, entry.name);
                let run = created(level.name(), path, io);
                assert(whole == gather_new(level, run));
                created_only_reads(level.name(), path, io);
                lemma_created_gains_nothing(level.name(), path, io);
                match run.out {
                    Outcome::Done(None) => {
                        let next = level.passed(false);
                        assert(whole == gather(next, run.io));
                        gather_only_reads(next, run.io);
                        lemma_truthful_parts(world, io, run, whole, queries());
                        new_nodes_are_as_found(world, level.name(), path, io);
                        assert(!entry_told(world, level.dir, entry, level.node));
                        lemma_passed(world, level);
                        lemma_gather_settles(world, next, run.io);
                    },
                    Outcome::Done(Some(child)) => {
                        let k = level.node.children.len() as int;
                        let next = level.with(level.node.children.push(child));
                        assert(whole == gather_into(next, k, run.io));
                        gather_into_only_reads(next, k, run.io);
                        lemma_truthful_parts(world, io, run, whole, queries());
                        new_nodes_are_as_found(world, level.name(), path, io);
                        lemma_others_pushed(world, level, child);
                        lemma_gather_into_settles(world, next, k, run.io);
                    },
                    _ => {},
                }
            },
        }
    } else {
        let n = level.entries.len() as int;
        let entries = listing_of(world(Request::ListDir(level.dir)))->Ok_0;
        assert(entries == level.entries);
        assert(told_between(world, level.dir, level.entries, 0, n, level.node) == told(
            world,
            level.dir,
            level.node,
        ));
    }
}

/// An entry without a child, which the host cannot look at, has been gone through.
proof fn lemma_passed(world: World, level: Level)
    requires
        0 <= level.next < level.entries.len(),
        gone_through(world, level),
        entry_settled(world, level.dir, level.entries[level.next], level.node),
        !entry_told(world, level.dir, level.entries[level.next], level.node),
    ensures
        gone_through(world, level.passed(false)),
{
    let n = level.next + 1;
    if told_between(world, level.dir, level.entries, 0, n, level.node) {
        let j = choose|j: int|
            0 <= j < n && 0 <= j < level.entries.len() && entry_told(
                world,
                level.dir,
                #[trigger] level.entries[j],
                level.node,
            );
        assert(j < level.next);
    }
    if level.has_file {
        let j = choose|j: int|
            0 <= j < level.next && 0 <= j < level.entries.len() && entry_told(
                world,
                level.dir,
                #[trigger] level.entries[j],
                level.node,
            );
        assert(0 <= j < n);
    }
}

/// The next entry and those behind it have nothing more to add in the end.
proof fn lemma_gather_into_settles(world: World, level: Level, k: int, io: Io)
    requires
        0 <= level.next < level.entries.len(),
        position(level.node.children, level.name()) == Some(k),
        faithful(world, level),
        others_gone_through(world, level, k),
        truthful(world, io, gather_into(level, k, io)),
    ensures
        all_settled(world, level, gather_into(level, k, io)),
    decreases io.rest.len(), 1nat, 4 * level.left() - 2,
{
    reveal(gather);
    reveal(collected);
    lemma_position(level.node.children, level.name());
    let whole = gather_into(level, k, io);
    let child = level.node.children[k];
    if child.file_type == NodeFileType::Directory {
        let dir = joined(level.dir, child.name);
        let run = collected(child, dir, io);
        let back = level.with(level.node.children.remove(k)).passed(false);
        collected_only_reads(child, dir, io);
        lemma_collected_gains_nothing(child, dir, io);
        assert(no_gain(io, run) == run);
        assert(whole == gather_back(back, k, run));
        match run.out {
            Outcome::Done(filled) => {
                let next = back.with(back.node.children.insert(k, filled.0));
                let has_file = next.has_file || filled.1 || filled.0.replace;
                let next = Level { has_file, ..next };
                assert(whole == gather(next, run.io));
                gather_only_reads(next, run.io);
                lemma_truthful_parts(world, io, run, whole, queries());
                collecting_finds_what_is_there(world, child, dir, io);
                assert(stems(world, dir, child, filled.0));
                collected_directories_are_settled(world, child, dir, io);
                if settled(world, dir, child) {
                    settled_directories_add_nothing(world, child, dir, io);
                }
                let has = filled.1 || filled.0.replace;
                assert(has == child_told(world, level.dir, filled.0));
                lemma_filled(world, level, k, filled.0, has);
                assert(next.node.children =~= level.node.children.update(k, filled.0));
                assert(next == level.with(level.node.children.update(k, filled.0)).passed(has));
                lemma_gather_settles(world, next, run.io);
            },
            _ => {},
        }
    } else {
        let next = level.passed(true);
        assert(whole == gather(next, io));
        lemma_filled(world, level, k, child, true);
        assert(level.node.children.update(k, child) =~= level.node.children);
        lemma_gather_settles(world, next, io);
    }
}

/// Collecting a directory for the second time changes nothing, and tells the same.
pub proof fn collecting_again_changes_nothing(
    world: World,
    node: NodeView,
    dir: Text,
    once: Io,
    again: Io,
)
    requires
        collected(node, dir, once).out is Done,
        truthful(world, once, collected(node, dir, once)),
        truthful(
            world,
            again,
            collected(collected(node, dir, once).out->Done_0.0, dir, again),
        ),
    ensures
        ({
            let first = collected(node, dir, once).out;
            let second = collected(first->Done_0.0, dir, again).out;
            second is Waiting || second == first
        }),
{
    collected_directories_are_settled(world, node, dir, once);
    let new_node = collected(node, dir, once).out->Done_0.0;
    settled_directories_add_nothing(world, new_node, dir, again);
}

/// Two computations came to the same end, as far as both came to an end.
pub open spec fn same_end<T>(one: Run<T>, other: Run<T>) -> bool {
    one.out is Waiting || other.out is Waiting || one.out == other.out
}

/// What is collected depends on what is there alone.
pub proof fn collecting_depends_on_what_is_there(
    world: World,
    node: NodeView,
    dir: Text,
    one: Io,
    other: Io,
)
    requires
        truthful(world, one, collected(node, dir, one)),
        truthful(world, other, collected(node, dir, other)),
    ensures
        same_end(collected(node, dir, one), collected(node, dir, other)),
    decreases one.rest.len(), 0nat, 0nat,
{
    reveal(collected);
    reveal(gather);
    let request = Request::ListDir(dir);
    let run1 = ask(one, request);
    let run2 = ask(other, request);
    let whole1 = collected(node, dir, one);
    let whole2 = collected(node, dir, other);
    if run1.out is Done && run2.out is Done {
        collected_only_reads(node, dir, one);
        collected_only_reads(node, dir, other);
        lemma_proceeds(one, whole1, queries());
        lemma_proceeds(other, whole2, queries());
        match listing_of(one.rest[0]) {
            Ok(entries) => {
                let level = Level { node, dir, entries, next: 0, has_file: false };
                assert(whole1 == gather(level, run1.io));
                gather_only_reads(level, run1.io);
                lemma_truthful_ask(world, one, request, whole1, queries());
            },
            Err(_) => {
                assert(whole1.io.asked[one.asked.len() as int] == request);
            },
        }
        match listing_of(other.rest[0]) {
            Ok(entries) => {
                let level = Level { node, dir, entries, next: 0, has_file: false };
                assert(whole2 == gather(level, run2.io));
                gather_only_reads(level, run2.io);
                lemma_truthful_ask(world, other, request, whole2, queries());
            },
            Err(_) => {
                assert(whole2.io.asked[other.asked.len() as int] == request);
            },
        }
        assert(one.rest[0] == other.rest[0]);
        match listing_of(one.rest[0]) {
            Ok(entries) => {
                let level = Level { node, dir, entries, next: 0, has_file: false };
                lemma_gather_depends(world, level, run1.io, run2.io);
            },
            Err(_) => {},
        }
    }
}

/// What is collected from the entries that are still to come depends on what is there alone.
proof fn lemma_gather_depends(world: World, level: Level, one: Io, other: Io)
    requires
        truthful(world, one, gather(level, one)),
        truthful(world, other, gather(level, other)),
    ensures
        same_end(gather(level, one), gather(level, other)),
    decreases one.rest.len(), 1nat, 4 * level.left(),
{
    reveal(gather);
    let whole1 = gather(level, one);
    let whole2 = gather(level, other);
    if 0 <= level.next < level.entries.len() {
        lemma_position(level.node.children, level.name());
        match position(level.node.children, level.name()) {
            Some(k) => {
                assert(whole1 == gather_into(level, k, one));
                assert(whole2 == gather_into(level, k, other));
                lemma_gather_into_depends(world, level, k, one, other);
            },
            None => {
                let path = joined(level.dir, level.entries[level.next].name);
                let run1 = created(level.name(), path, one);
                let run2 = created(level.name(), path, other);
                lemma_created_gains_nothing(level.name(), path, one);
                lemma_created_now(world, level, one);
                lemma_created_now(world, level, other);
                if run1.out is Done && run2.out is Done {
                    match run1.out->Done_0 {
                        None => {
                            lemma_gather_depends(world, level.passed(false), run1.io, run2.io);
                        },
                        Some(child) => {
                            let k = level.node.children.len() as int;
                            let next = level.with(level.node.children.push(child));
                            lemma_gather_into_depends(world, next, k, run1.io, run2.io);
                        },
                    }
                }
            },
        }
    }
}

/// How an entry without a child is dealt with.
proof fn lemma_created_now(world: World, level: Level, io: Io)
    requires
        0 <= level.next < level.entries.len(),
        position(level.node.children, level.name()) is None,
        truthful(world, io, gather(level, io)),
    ensures
        ({
            let path = joined(level.dir, level.entries[level.next].name);
            let run = created(level.name(), path, io);
            let whole = gather(level, io);
            match run.out {
                Outcome::Done(made) => {
                    &&& made == made_in(world, level.name(), path)
                    &&& truthful(world, run.io, whole)
                    &&& match made {
                        None => whole == gather(level.passed(false), run.io),
                        Some(child) => whole == gather_into(
                            level.with(level.node.children.push(child)),
                            level.node.children.len() as int,
                            run.io,
                        ),
                    }
                },
                Outcome::Fail(_) => false,
                Outcome::Waiting => whole.out is Waiting,
            }
        }),
{
    reveal(gather);
    let path = joined(level.dir, level.entries[level.next].name);
    let run = created(level.name(), path, io);
    let whole = gather(level, io);
    assert(whole == gather_new(level, run));
    created_only_reads(level.name(), path, io);
    match run.out {
        Outcome::Done(made) => {
            match made {
                None => {
                    gather_only_reads(level.passed(false), run.io);
                },
                Some(child) => {
                    let k = level.node.children.len() as int;
                    let next = level.with(level.node.children.push(child));
                    gather_into_only_reads(next, k, run.io);
                },
            }
            lemma_truthful_parts(world, io, run, whole, queries());
            new_nodes_are_as_found(world, level.name(), path, io);
        },
        _ => {},
    }
}

/// What is collected from the next entry on depends on what is there alone.
proof fn lemma_gather_into_depends(world: World, level: Level, k: int, one: Io, other: Io)
    requires
        0 <= level.next < level.entries.len(),
        0 <= k < level.node.children.len(),
        truthful(world, one, gather_into(level, k, one)),
        truthful(world, other, gather_into(level, k, other)),
    ensures
        same_end(gather_into(level, k, one), gather_into(level, k, other)),
    decreases one.rest.len(), 1nat, 4 * level.left() - 2,
{
    reveal(gather);
    reveal(collected);
    let child = level.node.children[k];
    if child.file_type == NodeFileType::Directory {
        let dir = joined(level.dir, child.name);
        let run1 = collected(child, dir, one);
        let run2 = collected(child, dir, other);
        lemma_filled_now(world, level, k, one);
        lemma_filled_now(world, level, k, other);
        lemma_collected_gains_nothing(child, dir, one);
        collecting_depends_on_what_is_there(world, child, dir, one, other);
        if run1.out is Done && run2.out is Done {
            let filled = run1.out->Done_0;
            lemma_gather_depends(world, level_filled(level, k, filled), run1.io, run2.io);
        }
    } else {
        assert(gather_into(level, k, one) == gather(level.passed(true), one));
        assert(gather_into(level, k, other) == gather(level.passed(true), other));
        lemma_gather_depends(world, level.passed(true), one, other);
    }
}

/// A level when the child for the next entry has been filled.
spec fn level_filled(level: Level, k: int, filled: (NodeView, bool)) -> Level {
    let back = level.with(level.node.children.remove(k)).passed(false);
    let next = back.with(back.node.children.insert(k, filled.0));
    Level { has_file: next.has_file || filled.1 || filled.0.replace, ..next }
}

/// How an entry whose child is a directory is dealt with.
proof fn lemma_filled_now(world: World, level: Level, k: int, io: Io)
    requires
        0 <= level.next < level.entries.len(),
        0 <= k < level.node.children.len(),
        level.node.children[k].file_type == NodeFileType::Directory,
        truthful(world, io, gather_into(level, k, io)),
    ensures
        ({
            let child = level.node.children[k];
            let run = collected(child, joined(level.dir, child.name), io);
            let whole = gather_into(level, k, io);
            &&& truthful(world, io, run)
            &&& match run.out {
                Outcome::Done(filled) => {
                    &&& whole == gather(level_filled(level, k, filled), run.io)
                    &&& truthful(world, run.io, whole)
                },
                Outcome::Fail(e) => whole.out == Outcome::<(NodeView, bool)>::Fail(e),
                Outcome::Waiting => whole.out is Waiting,
            }
        }),
{
    reveal(gather);
    reveal(collected);
    let child = level.node.children[k];
    let dir = joined(level.dir, child.name);
    let run = collected(child, dir, io);
    let whole = gather_into(level, k, io);
    let back = level.with(level.node.children.remove(k)).passed(false);
    collected_only_reads(child, dir, io);
    lemma_collected_gains_nothing(child, dir, io);
    assert(no_gain(io, run) == run);
    assert(whole == gather_back(back, k, run));
    match run.out {
        Outcome::Done(filled) => {
            gather_only_reads(level_filled(level, k, filled), run.io);
            lemma_truthful_parts(world, io, run, whole, queries());
        },
        _ => {},
    }
}

} // verus!
