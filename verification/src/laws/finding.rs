//! What is found is what is there.
//!
//! A host that answers questions truthfully is described by a function from requests to replies.
//! Questions that change nothing can be answered by the same function throughout.

use vstd::prelude::*;
#[allow(unused_imports)]
use vstd::string::StringSliceAdditionalSpecFns;

use crate::bytes::{joined, lossy_text};
use crate::collect::{
    collected, created, created_of, gather, gather_back, gather_into, gather_new,
    lemma_collected_gains_nothing, lemma_created_gains_nothing, marks_opaque, no_gain, replaces,
    replaces_by, Level,
};
use crate::laws::conversation::{lemma_ask, lemma_end, lemma_proceeds, proceeds, Limits};
use crate::laws::reading::{
    collected_only_reads, created_only_reads, gather_into_only_reads, gather_only_reads, queries,
    replaces_only_reads, weighing_only_reads,
};
use crate::laws::tree::{extends, lemma_extends_itself};
use crate::mount::{tmpfs_decision, weigh, weighed, with_skipped};
use crate::node::{
    lemma_position, module_node, needs_tmpfs, position, probe_of, type_of_file, NodeFileType,
    NodeView,
};
use crate::protocol::{
    ask, flag_of, listing_of, stat_of, Entry, Error, Io, Outcome, ReplyView, Request, Run, Text,
};

verus! {

/// A host that gives the same answer whenever it is asked the same.
pub type World = spec_fn(Request<Text>) -> ReplyView;

/// All questions of a computation were answered as the world is.
pub open spec fn truthful<T>(world: World, io: Io, run: Run<T>) -> bool {
    forall|j: int|
        io.asked.len() <= j < run.io.asked.len() && j - io.asked.len() < io.rest.len()
            ==> io.rest[j - io.asked.len()] == world(#[trigger] run.io.asked[j])
}

/// The parts of a truthful conversation are truthful.
pub proof fn lemma_truthful_parts<A, B>(
    world: World,
    io: Io,
    first: Run<A>,
    second: Run<B>,
    limits: Limits,
)
    requires
        proceeds(io, first, limits),
        !(first.out is Waiting),
        proceeds(first.io, second, limits),
        truthful(world, io, second),
    ensures
        truthful(world, io, first),
        truthful(world, first.io, second),
{
    lemma_proceeds(io, first, limits);
    lemma_proceeds(first.io, second, limits);
    let n = first.io.asked.len() - io.asked.len();
    assert forall|j: int|
        io.asked.len() <= j < first.io.asked.len() && j - io.asked.len()
            < io.rest.len() implies io.rest[j - io.asked.len()] == world(
        #[trigger] first.io.asked[j],
    ) by {
        assert(first.io.asked[j] == second.io.asked.take(first.io.asked.len() as int)[j]);
        assert(first.io.asked[j] == second.io.asked[j]);
    }
    assert forall|j: int|
        first.io.asked.len() <= j < second.io.asked.len() && j - first.io.asked.len()
            < first.io.rest.len() implies first.io.rest[j - first.io.asked.len()] == world(
        #[trigger] second.io.asked[j],
    ) by {
        assert(first.io.rest[j - first.io.asked.len()] == io.rest[j - io.asked.len()]);
    }
}

/// The first question of a truthful conversation is answered as the world is.
pub proof fn lemma_truthful_ask<T>(
    world: World,
    io: Io,
    request: Request<Text>,
    whole: Run<T>,
    limits: Limits,
)
    requires
        (limits.allowed)(request),
        ask(io, request).out is Done,
        proceeds(ask(io, request).io, whole, limits),
        truthful(world, io, whole),
    ensures
        ask(io, request).out == Outcome::Done(world(request)),
        truthful(world, ask(io, request).io, whole),
{
    let run = ask(io, request);
    lemma_ask(io, request, limits);
    lemma_truthful_parts(world, io, run, whole, limits);
    assert(run.io.asked[io.asked.len() as int] == request);
}

/// Whether a directory of a module replaces the device's.
pub open spec fn replaces_in(world: World, path: Text) -> bool {
    ||| marks_opaque(
        world(Request::GetXattr { path, name: "trusted.overlay.opaque".spec_bytes() }),
    )
    ||| flag_of(world(Request::Exists(joined(path, ".replace".spec_bytes()))))
}

/// A directory replaces the device's exactly if it carries the attribute or holds the marker.
pub proof fn replacing_directories_are_found(world: World, path: Text, io: Io)
    requires
        truthful(world, io, replaces(path, io)),
    ensures
        replaces(path, io).out matches Outcome::Done(replace) ==> replace == replaces_in(
            world,
            path,
        ),
{
    let whole = replaces(path, io);
    let request = Request::GetXattr { path, name: "trusted.overlay.opaque".spec_bytes() };
    let run = ask(io, request);
    if run.out is Done {
        let reply = io.rest[0];
        let marker = Request::Exists(joined(path, ".replace".spec_bytes()));
        assert(whole == replaces_by(path, reply, run.io));
        assert(whole.io.asked[io.asked.len() as int] == request);
        if !marks_opaque(reply) && run.io.rest.len() > 0 {
            assert(whole.io.asked[io.asked.len() as int + 1] == marker);
            assert(run.io.rest[0] == io.rest[1]);
        }
    }
}

/// What a module's file at `path` becomes.
pub open spec fn made_in(world: World, name: Text, path: Text) -> Option<NodeView> {
    match stat_of(world(Request::Lstat(path))) {
        Ok(metadata) => {
            let file_type = type_of_file(metadata);
            Some(
                module_node(
                    name,
                    file_type,
                    path,
                    file_type == NodeFileType::Directory && replaces_in(world, path),
                ),
            )
        },
        Err(_) => None,
    }
}

/// The node for a file of a module is made of what the host knows of that file.
pub proof fn new_nodes_are_as_found(world: World, name: Text, path: Text, io: Io)
    requires
        truthful(world, io, created(name, path, io)),
    ensures
        created(name, path, io).out matches Outcome::Done(node) ==> node == made_in(
            world,
            name,
            path,
        ),
{
    let whole = created(name, path, io);
    let request = Request::Lstat(path);
    let run = ask(io, request);
    if run.out is Done {
        let reply = io.rest[0];
        assert(whole == created_of(name, path, reply, run.io));
        created_only_reads(name, path, io);
        lemma_proceeds(io, whole, queries());
        match stat_of(reply) {
            Ok(metadata) => {
                if type_of_file(metadata) == NodeFileType::Directory {
                    let check = replaces(path, run.io);
                    replaces_only_reads(path, run.io);
                    assert(whole.io == check.io);
                    lemma_truthful_same(world, io, whole, check);
                    lemma_truthful_ask(world, io, request, check, queries());
                    replacing_directories_are_found(world, path, run.io);
                } else {
                    assert(whole.io.asked[io.asked.len() as int] == request);
                }
            },
            Err(_) => {
                assert(whole.io.asked[io.asked.len() as int] == request);
            },
        }
    }
}

/// Truthfulness does not depend on what a computation returns.
proof fn lemma_truthful_same<A, B>(world: World, io: Io, one: Run<A>, other: Run<B>)
    requires
        truthful(world, io, one),
        one.io == other.io,
    ensures
        truthful(world, io, other),
{
}

/// An entry of the directory `dir` has its place below a node: there is a child of its name,
/// unless the host cannot look at the file, and a child that is a directory covers what the
/// directory of its name holds.
pub open spec fn covers_entry(world: World, dir: Text, entry: Entry<Text>, node: NodeView) -> bool
    decreases node, 0nat,
{
    made_in(world, lossy_text(entry.name), joined(dir, entry.name)) is Some ==> exists|k: int|
        0 <= k < node.children.len() && (#[trigger] node.children[k]).name == lossy_text(entry.name)
            && (node.children[k].file_type == NodeFileType::Directory ==> covers(
            world,
            joined(dir, node.children[k].name),
            node.children[k],
        ))
}

/// All that the directory `dir` holds has its place below a node.
pub open spec fn covers(world: World, dir: Text, node: NodeView) -> bool
    decreases node, 1nat,
{
    &&& listing_of(world(Request::ListDir(dir))) matches Ok(entries) && forall|j: int|
        0 <= j < entries.len() ==> covers_entry(world, dir, #[trigger] entries[j], node)
}

/// What has its place below a node has it below any larger one.
pub proof fn lemma_covers_entry_further(
    world: World,
    dir: Text,
    entry: Entry<Text>,
    node: NodeView,
    larger: NodeView,
)
    requires
        covers_entry(world, dir, entry, node),
        extends(node, larger),
    ensures
        covers_entry(world, dir, entry, larger),
    decreases node, 0nat,
{
    if made_in(world, lossy_text(entry.name), joined(dir, entry.name)) is Some {
        let k = choose|k: int|
            0 <= k < node.children.len() && (#[trigger] node.children[k]).name == lossy_text(
                entry.name,
            ) && (node.children[k].file_type == NodeFileType::Directory ==> covers(
                world,
                joined(dir, node.children[k].name),
                node.children[k],
            ));
        let child = node.children[k];
        assert(extends(child, larger.children[k]));
        if child.file_type == NodeFileType::Directory {
            lemma_covers_further(world, joined(dir, child.name), child, larger.children[k]);
        }
    }
}

/// What a node covers, any larger one covers.
pub proof fn lemma_covers_further(world: World, dir: Text, node: NodeView, larger: NodeView)
    requires
        covers(world, dir, node),
        extends(node, larger),
    ensures
        covers(world, dir, larger),
    decreases node, 1nat,
{
    let entries = listing_of(world(Request::ListDir(dir)))->Ok_0;
    assert forall|j: int| 0 <= j < entries.len() implies covers_entry(
        world,
        dir,
        #[trigger] entries[j],
        larger,
    ) by {
        assert(covers_entry(world, dir, entries[j], node));
        lemma_covers_entry_further(world, dir, entries[j], node, larger);
    }
}

/// All that was added to a node comes from the directory `dir`. What was there is unchanged, or is
/// a directory to which the directory of its name was added. Each new child is made of an entry.
pub open spec fn stems(world: World, dir: Text, old_node: NodeView, new_node: NodeView) -> bool
    decreases new_node, 0nat,
{
    &&& new_node == NodeView { children: new_node.children, ..old_node }
    &&& old_node.children.len() <= new_node.children.len()
    &&& forall|i: int|
        0 <= i < new_node.children.len() ==> {
            if i < old_node.children.len() {
                stays_or_stems(world, dir, old_node.children[i], #[trigger] new_node.children[i])
            } else {
                made_of_entry(world, dir, new_node.children[i])
            }
        }
}

/// A child is unchanged, or is a directory to which the directory of its name was added.
pub open spec fn stays_or_stems(
    world: World,
    dir: Text,
    old_node: NodeView,
    new_node: NodeView,
) -> bool
    decreases new_node, 1nat,
{
    ||| new_node == old_node
    ||| old_node.file_type == NodeFileType::Directory && stems(
        world,
        joined(dir, old_node.name),
        old_node,
        new_node,
    )
}

/// What the entry at `j` of the directory `dir` becomes.
pub open spec fn made_of_nth(world: World, dir: Text, j: int) -> Option<NodeView> {
    match listing_of(world(Request::ListDir(dir))) {
        Ok(entries) => if 0 <= j < entries.len() {
            made_in(world, lossy_text(entries[j].name), joined(dir, entries[j].name))
        } else {
            None
        },
        Err(_) => None,
    }
}

/// A child is made of an entry of the directory `dir`, and if it is a directory was filled with
/// what the directory of its name holds.
pub open spec fn made_of_entry(world: World, dir: Text, node: NodeView) -> bool
    decreases node, 2nat,
{
    exists|j: int| #[trigger] made_of_nth(world, dir, j) is Some && stays_or_stems(
        world,
        dir,
        made_of_nth(world, dir, j)->0,
        node,
    )
}

/// A node to which something was added is larger.
pub proof fn lemma_stems_extends(world: World, dir: Text, old_node: NodeView, new_node: NodeView)
    requires
        stems(world, dir, old_node, new_node),
    ensures
        extends(old_node, new_node),
    decreases new_node,
{
    assert forall|i: int| 0 <= i < old_node.children.len() implies extends(
        #[trigger] old_node.children[i],
        new_node.children[i],
    ) by {
        let a = old_node.children[i];
        let b = new_node.children[i];
        assert(stays_or_stems(world, dir, a, b));
        if b == a {
            lemma_extends_itself(a);
        } else {
            lemma_stems_extends(world, joined(dir, a.name), a, b);
        }
    }
}

/// Adding to a child twice is adding to it.
proof fn lemma_stays_further(world: World, dir: Text, a: NodeView, b: NodeView, c: NodeView)
    requires
        stays_or_stems(world, dir, a, b),
        stays_or_stems(world, dir, b, c),
    ensures
        stays_or_stems(world, dir, a, c),
    decreases c, 1nat,
{
    if b != a && c != b {
        lemma_stems_further(world, joined(dir, a.name), a, b, c);
    }
}

/// Adding to a node twice is adding to it.
proof fn lemma_stems_further(world: World, dir: Text, a: NodeView, b: NodeView, c: NodeView)
    requires
        stems(world, dir, a, b),
        stems(world, dir, b, c),
    ensures
        stems(world, dir, a, c),
    decreases c, 0nat,
{
    assert forall|i: int| 0 <= i < c.children.len() implies {
        if i < a.children.len() {
            stays_or_stems(world, dir, a.children[i], #[trigger] c.children[i])
        } else {
            made_of_entry(world, dir, c.children[i])
        }
    } by {
        if i < b.children.len() {
            let bi = b.children[i];
            let ci = c.children[i];
            assert(stays_or_stems(world, dir, bi, ci));
            if i < a.children.len() {
                assert(stays_or_stems(world, dir, a.children[i], bi));
                lemma_stays_further(world, dir, a.children[i], bi, ci);
            } else {
                assert(made_of_entry(world, dir, bi));
                let j = choose|j: int| #[trigger] made_of_nth(world, dir, j) is Some
                    && stays_or_stems(world, dir, made_of_nth(world, dir, j)->0, bi);
                lemma_stays_further(world, dir, made_of_nth(world, dir, j)->0, bi, ci);
            }
        }
    }
}

/// Collecting a directory finds all that it holds and nothing else: every entry that the host can
/// look at has its place in the tree, directories with all that they hold, and everything that was
/// added to the tree is made of an entry.
pub proof fn collecting_finds_what_is_there(world: World, node: NodeView, dir: Text, io: Io)
    requires
        truthful(world, io, collected(node, dir, io)),
    ensures
        collected(node, dir, io).out matches Outcome::Done((new_node, _)) ==> {
            &&& covers(world, dir, new_node)
            &&& stems(world, dir, node, new_node)
        },
    decreases io.rest.len(), 0nat, 0nat,
{
    reveal(collected);
    reveal(gather);
    let whole = collected(node, dir, io);
    let request = Request::ListDir(dir);
    let run = ask(io, request);
    match run.out {
        Outcome::Done(reply) => match listing_of(reply) {
            Ok(entries) => {
                let level = Level { node, dir, entries, next: 0, has_file: false };
                assert(whole == gather(level, run.io));
                gather_only_reads(level, run.io);
                lemma_truthful_ask(world, io, request, whole, queries());
                gathering_finds_what_is_there(world, level, run.io);
            },
            Err(_) => {},
        },
        _ => {},
    }
}

/// What collecting the rest of a level comes to.
spec fn found_rest(world: World, level: Level, run: Run<(NodeView, bool)>) -> bool {
    run.out matches Outcome::Done((new_node, _)) ==> {
        &&& stems(world, level.dir, level.node, new_node)
        &&& forall|j: int|
            level.next <= j < level.entries.len() ==> covers_entry(
                world,
                level.dir,
                #[trigger] level.entries[j],
                new_node,
            )
    }
}

/// What is found in the entries that are still to come.
proof fn gathering_finds_what_is_there(world: World, level: Level, io: Io)
    requires
        0 <= level.next,
        truthful(world, io, gather(level, io)),
        listing_of(world(Request::ListDir(level.dir))) == Ok::<
            Seq<Entry<Text>>,
            Error<Text>,
        >(level.entries),
    ensures
        found_rest(world, level, gather(level, io)),
    decreases io.rest.len(), 1nat, 4 * level.left(),
{
    reveal(gather);
    let whole = gather(level, io);
    if level.next < level.entries.len() {
        lemma_position(level.node.children, level.name());
        match position(level.node.children, level.name()) {
            Some(k) => {
                assert(whole == gather_into(level, k, io));
                filling_finds_what_is_there(world, level, k, io);
            },
            None => {
                let entry = level.entries[level.next];
                let path = joined(level.dir, entry.name);
                let run = created(level.name(), path, io);
                assert(whole == gather_new(level, run));
                created_only_reads(level.name(), path, io);
                lemma_created_gains_nothing(level.name(), path, io);
                match run.out {
                    Outcome::Done(None) => {
                        let next = level.passed(false);
                        assert(whole == gather(next, run.io));
                        gather_only_reads(next, run.io);
                        lemma_truthful_parts(world, io, run, whole, queries());
                        new_nodes_are_as_found(world, level.name(), path, io);
                        gathering_finds_what_is_there(world, next, run.io);
                    },
                    Outcome::Done(Some(child)) => {
                        let k = level.node.children.len() as int;
                        let next = level.with(level.node.children.push(child));
                        assert(whole == gather_into(next, k, run.io));
                        gather_into_only_reads(next, k, run.io);
                        lemma_truthful_parts(world, io, run, whole, queries());
                        new_nodes_are_as_found(world, level.name(), path, io);
                        filling_finds_what_is_there(world, next, k, run.io);
                        assert(made_of_nth(world, level.dir, level.next) == Some(child));
                        assert(stays_or_stems(world, level.dir, child, child));
                        assert(made_of_entry(world, level.dir, child));
                        assert(stems(world, level.dir, level.node, next.node));
                        if whole.out is Done {
                            lemma_stems_further(
                                world,
                                level.dir,
                                level.node,
                                next.node,
                                whole.out->Done_0.0,
                            );
                        }
                    },
                    _ => {},
                }
            },
        }
    }
}

/// What is found from where the child for the next entry is there.
proof fn filling_finds_what_is_there(world: World, level: Level, k: int, io: Io)
    requires
        0 <= level.next < level.entries.len(),
        0 <= k < level.node.children.len(),
        level.node.children[k].name == level.name(),
        truthful(world, io, gather_into(level, k, io)),
        listing_of(world(Request::ListDir(level.dir))) == Ok::<
            Seq<Entry<Text>>,
            Error<Text>,
        >(level.entries),
    ensures
        found_rest(world, level, gather_into(level, k, io)),
    decreases io.rest.len(), 1nat, 4 * level.left() - 2,
{
    reveal(gather);
    reveal(collected);
    let whole = gather_into(level, k, io);
    let child = level.node.children[k];
    let entry = level.entries[level.next];
    if child.file_type == NodeFileType::Directory {
        let dir = joined(level.dir, child.name);
        let run = collected(child, dir, io);
        let back = level.with(level.node.children.remove(k)).passed(false);
        collected_only_reads(child, dir, io);
        lemma_collected_gains_nothing(child, dir, io);
        assert(no_gain(io, run) == run);
        assert(whole == gather_back(back, k, run));
        match run.out {
            Outcome::Done(filled) => {
                let next = back.with(back.node.children.insert(k, filled.0));
                let has_file = next.has_file || filled.1 || filled.0.replace;
                let next = Level { has_file, ..next };
                assert(whole == gather(next, run.io));
                assert(next.node.children =~= level.node.children.update(k, filled.0));
                gather_only_reads(next, run.io);
                lemma_truthful_parts(world, io, run, whole, queries());
                collecting_finds_what_is_there(world, child, dir, io);
                gathering_finds_what_is_there(world, next, run.io);
                lemma_child_stems(world, level.dir, level.node, k, filled.0);
                if whole.out is Done {
                    let new_node = whole.out->Done_0.0;
                    assert(next.node.children[k].name == level.name());
                    assert(covers_entry(world, level.dir, entry, next.node));
                    lemma_stems_extends(world, level.dir, next.node, new_node);
                    lemma_covers_entry_further(world, level.dir, entry, next.node, new_node);
                    lemma_stems_further(world, level.dir, level.node, next.node, new_node);
                }
            },
            _ => {},
        }
    } else {
        let next = level.passed(true);
        assert(whole == gather(next, io));
        gathering_finds_what_is_there(world, next, io);
        if whole.out is Done {
            let new_node = whole.out->Done_0.0;
            assert(level.node.children[k].name == level.name());
            assert(covers_entry(world, level.dir, entry, level.node));
            lemma_stems_extends(world, level.dir, level.node, new_node);
            lemma_covers_entry_further(world, level.dir, entry, level.node, new_node);
        }
    }
}

/// A node to one of whose directories something was added.
proof fn lemma_child_stems(world: World, dir: Text, node: NodeView, k: int, child: NodeView)
    requires
        0 <= k < node.children.len(),
        node.children[k].file_type == NodeFileType::Directory,
        stems(world, joined(dir, node.children[k].name), node.children[k], child),
    ensures
        stems(world, dir, node, NodeView { children: node.children.update(k, child), ..node }),
{
    let new_node = NodeView { children: node.children.update(k, child), ..node };
    assert forall|i: int| 0 <= i < new_node.children.len() implies stays_or_stems(
        world,
        dir,
        node.children[i],
        #[trigger] new_node.children[i],
    ) by {
        assert(i != k ==> new_node.children[i] == node.children[i]);
    }
}

/// Whether a child can only be mounted in a directory that is built anew.
pub open spec fn needs_new_dir(world: World, path: Text, child: NodeView) -> bool {
    match probe_of(child.file_type, joined(path, child.name)) {
        Some(request) => needs_tmpfs(child.file_type, world(request)),
        None => true,
    }
}

/// A node with those children marked to be left out, from the one at `i` on, that can only be
/// mounted in a directory that is built anew.
pub open spec fn marked_from(world: World, path: Text, node: NodeView, i: int) -> NodeView {
    NodeView {
        children: Seq::new(
            node.children.len(),
            |k: int|
                if i <= k && needs_new_dir(world, path, node.children[k]) {
                    NodeView { skip: true, ..node.children[k] }
                } else {
                    node.children[k]
                },
        ),
        ..node
    }
}

/// What comes of holding the children from `i` on against the device's files.
proof fn lemma_weighed_as_found(world: World, path: Text, node: NodeView, i: int, io: Io)
    requires
        0 <= i,
        truthful(world, io, weigh(path, node, i, io)),
    ensures
        weigh(path, node, i, io).out matches Outcome::Done((create, decided)) ==> {
            if node.origin is Some {
                &&& decided == node
                &&& create <==> exists|k: int|
                    i <= k < node.children.len() && needs_new_dir(
                        world,
                        path,
                        #[trigger] node.children[k],
                    )
            } else {
                &&& !create
                &&& decided == marked_from(world, path, node, i)
            }
        },
    decreases node.children.len() - i,
{
    let whole = weigh(path, node, i, io);
    if i >= node.children.len() {
        assert(marked_from(world, path, node, i).children =~= node.children);
    } else {
        let child = node.children[i];
        let skipped = with_skipped(node, i);
        let needed = needs_new_dir(world, path, child);
        let asked = probe_of(child.file_type, joined(path, child.name));
        let io2 = match asked {
            Some(request) => ask(io, request).io,
            None => io,
        };
        weighing_only_reads(path, node, i + 1, io2);
        weighing_only_reads(path, skipped, i + 1, io2);
        lemma_end(io2, Outcome::Done((true, node)), queries());
        if asked is None || ask(io, asked->0).out is Done {
            match asked {
                Some(request) => {
                    let reply = io.rest[0];
                    let found = needs_tmpfs(child.file_type, reply);
                    assert(whole == weighed(path, node, i, found, io2));
                    lemma_truthful_ask(world, io, request, whole, queries());
                    assert(found == needed);
                },
                None => {},
            }
            assert(whole == weighed(path, node, i, needed, io2));
            if node.origin is Some {
                if needed {
                    assert(needs_new_dir(world, path, node.children[i]));
                } else {
                    lemma_weighed_as_found(world, path, node, i + 1, io2);
                }
            } else {
                let rest = if needed {
                    skipped
                } else {
                    node
                };
                assert(whole == weigh(path, rest, i + 1, io2));
                lemma_weighed_as_found(world, path, rest, i + 1, io2);
                assert(marked_from(world, path, rest, i + 1).children =~= marked_from(
                    world,
                    path,
                    node,
                    i,
                ).children);
            }
        }
    }
}

/// A directory is built anew exactly where that has not been done around it already, a module
/// provides it, and it replaces the device's or has a child that cannot be mounted over the
/// device's file as that is. Where no module provides it, just such children are marked to be left
/// out.
pub proof fn decisions_follow_the_device(
    world: World,
    path: Text,
    node: NodeView,
    has_tmpfs: bool,
    io: Io,
)
    requires
        truthful(world, io, tmpfs_decision(path, node, has_tmpfs, io)),
    ensures
        tmpfs_decision(path, node, has_tmpfs, io).out matches Outcome::Done((create, decided)) ==> {
            &&& create <==> !has_tmpfs && node.origin is Some && (node.replace || exists|k: int|
                0 <= k < node.children.len() && needs_new_dir(
                    world,
                    path,
                    #[trigger] node.children[k],
                ))
            &&& decided == (if !has_tmpfs && node.origin is None {
                marked_from(world, path, node, 0)
            } else {
                node
            })
        },
{
    if !has_tmpfs && !(node.replace && node.origin is Some) {
        lemma_weighed_as_found(world, path, node, 0, io);
    }
}

} // verus!
