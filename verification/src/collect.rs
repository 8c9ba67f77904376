//! Collecting the files of one directory of a module.

use vstd::prelude::*;
use vstd::string::is_ascii_spec_bytes;
#[allow(unused_imports)]
use vstd::string::StringSliceAdditionalSpecFns;
use vstd::utf8::{encode_utf8_valid_utf8, valid_utf8};

use crate::bytes::{copied, join, joined, lossy, lossy_text, occurs_in, same};
use crate::node::{
    find, lemma_children_view, module_node, nodes_view, position, type_of_file, MaybeNode, Node,
    NodeFileType, NodeView,
};
use crate::protocol::{
    ask, data_of, done, entries_view, fail, flag_of, listing_of, stat_of, still_to_come, waiting,
    Entry, Io, Machine, Outcome, Reply, ReplyView, Request, Run, Text, Turn,
};

verus! {

/// Whether an attribute marks a directory as one that hides what it covers.
pub open spec fn marks_opaque(reply: ReplyView) -> bool {
    match data_of(reply) {
        Ok(value) => value == "y".spec_bytes(),
        Err(_) => false,
    }
}

/// Finds out whether a directory of a module replaces the device's: it carries the attribute, or
/// it holds the marker file.
pub open spec fn replaces(path: Text, io: Io) -> Run<bool> {
    let request = Request::GetXattr { path, name: "trusted.overlay.opaque".spec_bytes() };
    let run = ask(io, request);
    match run.out {
        Outcome::Done(reply) => replaces_by(path, reply, run.io),
        Outcome::Fail(e) => fail(run.io, e),
        Outcome::Waiting => waiting(run.io),
    }
}

/// Goes on when the attribute is known.
pub open spec fn replaces_by(path: Text, reply: ReplyView, io: Io) -> Run<bool> {
    if marks_opaque(reply) {
        done(io, true)
    } else {
        let run = ask(io, Request::Exists(joined(path, ".replace".spec_bytes())));
        match run.out {
            Outcome::Done(reply) => done(run.io, flag_of(reply)),
            Outcome::Fail(e) => fail(run.io, e),
            Outcome::Waiting => waiting(run.io),
        }
    }
}

/// Makes the node for the file that a module keeps at `path`; there is none if the file cannot be
/// looked at.
pub open spec fn created(name: Text, path: Text, io: Io) -> Run<Option<NodeView>> {
    let run = ask(io, Request::Lstat(path));
    match run.out {
        Outcome::Done(reply) => created_of(name, path, reply, run.io),
        Outcome::Fail(e) => fail(run.io, e),
        Outcome::Waiting => waiting(run.io),
    }
}

/// Goes on when the file's metadata is known.
pub open spec fn created_of(name: Text, path: Text, reply: ReplyView, io: Io) -> Run<
    Option<NodeView>,
> {
    match stat_of(reply) {
        Ok(metadata) => if type_of_file(metadata) == NodeFileType::Directory {
            created_dir(name, path, replaces(path, io))
        } else {
            done(io, Some(module_node(name, type_of_file(metadata), path, false)))
        },
        Err(_) => done(io, None),
    }
}

/// Goes on when it is known whether the directory replaces the device's.
pub open spec fn created_dir(name: Text, path: Text, run: Run<bool>) -> Run<Option<NodeView>> {
    match run.out {
        Outcome::Done(replace) => done(
            run.io,
            Some(module_node(name, NodeFileType::Directory, path, replace)),
        ),
        Outcome::Fail(e) => fail(run.io, e),
        Outcome::Waiting => waiting(run.io),
    }
}

/// A directory whose entries are being collected.
pub struct Level {
    pub node: NodeView,
    pub dir: Text,
    pub entries: Seq<Entry<Text>>,
    pub next: int,
    pub has_file: bool,
}

impl Level {
    /// The name of the entry that comes next.
    pub open spec fn name(self) -> Text {
        lossy_text(self.entries[self.next].name)
    }

    /// The entry that comes next has been dealt with.
    pub open spec fn passed(self, has_file: bool) -> Level {
        Level { next: self.next + 1, has_file: self.has_file || has_file, ..self }
    }

    /// The level with other children.
    pub open spec fn with(self, children: Seq<NodeView>) -> Level {
        Level { node: NodeView { children, ..self.node }, ..self }
    }

    /// The number of entries that are still to come.
    pub open spec fn left(self) -> nat {
        still_to_come(self.entries, self.next)
    }
}

/// Takes a run only if it has not gained replies since `io`. None ever does.
pub open spec fn no_gain<T>(io: Io, run: Run<T>) -> Run<T> {
    if run.io.rest.len() <= io.rest.len() {
        run
    } else {
        waiting(io)
    }
}

/// Collects the entries of the directory `dir` as children of a node. A child that is there
/// already stays as it is, but a directory goes on to be filled. Tells whether there was anything
/// to mount.
#[verifier::opaque]
pub open spec fn collected(node: NodeView, dir: Text, io: Io) -> Run<(NodeView, bool)>
    decreases io.rest.len(), 0nat, 0nat,
{
    let run = ask(io, Request::ListDir(dir));
    match run.out {
        Outcome::Done(reply) => match listing_of(reply) {
            Ok(entries) => gather(Level { node, dir, entries, next: 0, has_file: false }, run.io),
            Err(e) => fail(run.io, e),
        },
        Outcome::Fail(e) => fail(run.io, e),
        Outcome::Waiting => waiting(run.io),
    }
}

/// Collects the entries that are still to come.
#[verifier::opaque]
pub open spec fn gather(level: Level, io: Io) -> Run<(NodeView, bool)>
    decreases io.rest.len(), 1nat, 4 * level.left(),
{
    if level.next < 0 || level.next >= level.entries.len() {
        done(io, (level.node, level.has_file))
    } else {
        match position(level.node.children, level.name()) {
            Some(k) => gather_into(level, k, io),
            None => gather_new(
                level,
                created(level.name(), joined(level.dir, level.entries[level.next].name), io),
            ),
        }
    }
}

/// Goes on when the node for a new entry was made, if one could be made.
pub open spec fn gather_new(level: Level, run: Run<Option<NodeView>>) -> Run<(NodeView, bool)>
    decreases run.io.rest.len(), 1nat, 4 * level.left() - 1,
{
    if level.next < 0 || level.next >= level.entries.len() {
        waiting(run.io)
    } else {
        match run.out {
            Outcome::Done(None) => gather(level.passed(false), run.io),
            Outcome::Done(Some(node)) => gather_into(
                level.with(level.node.children.push(node)),
                level.node.children.len() as int,
                run.io,
            ),
            Outcome::Fail(e) => fail(run.io, e),
            Outcome::Waiting => waiting(run.io),
        }
    }
}

/// Goes on with the child for the next entry: a directory is filled first, anything else is
/// something to mount.
pub open spec fn gather_into(level: Level, k: int, io: Io) -> Run<(NodeView, bool)>
    decreases io.rest.len(), 1nat, 4 * level.left() - 2,
{
    if level.next < 0 || level.next >= level.entries.len() {
        waiting(io)
    } else {
        let child = level.node.children[k];
        if child.file_type == NodeFileType::Directory {
            gather_back(
                level.with(level.node.children.remove(k)).passed(false),
                k,
                no_gain(io, collected(child, joined(level.dir, child.name), io)),
            )
        } else {
            gather(level.passed(true), io)
        }
    }
}

/// Goes on when a child has been filled: it takes its place again.
pub open spec fn gather_back(level: Level, k: int, run: Run<(NodeView, bool)>) -> Run<
    (NodeView, bool),
>
    decreases run.io.rest.len(), 1nat, 4 * level.left() + 1,
{
    match run.out {
        Outcome::Done(filled) => {
            let child = filled.0;
            let level = level.with(level.node.children.insert(k, child));
            gather(
                Level { has_file: level.has_file || filled.1 || child.replace, ..level },
                run.io,
            )
        },
        Outcome::Fail(e) => fail(run.io, e),
        Outcome::Waiting => waiting(run.io),
    }
}

/// Making a node uses up replies.
pub proof fn lemma_created_gains_nothing(name: Text, path: Text, io: Io)
    ensures
        created(name, path, io).io.rest.len() <= io.rest.len(),
{
}

/// Collecting uses up replies.
pub proof fn lemma_collected_gains_nothing(node: NodeView, dir: Text, io: Io)
    ensures
        collected(node, dir, io).io.rest.len() <= io.rest.len(),
    decreases io.rest.len(), 0nat, 0nat,
{
    reveal(collected);
    reveal(gather);
    let run = ask(io, Request::ListDir(dir));
    match run.out {
        Outcome::Done(reply) => match listing_of(reply) {
            Ok(entries) => {
                lemma_gather_gains_nothing(
                    Level { node, dir, entries, next: 0, has_file: false },
                    run.io,
                );
            },
            Err(_) => {},
        },
        _ => {},
    }
}

/// Collecting the entries that are still to come uses up replies.
pub proof fn lemma_gather_gains_nothing(level: Level, io: Io)
    ensures
        gather(level, io).io.rest.len() <= io.rest.len(),
    decreases io.rest.len(), 1nat, 4 * level.left(),
{
    reveal(gather);
    if 0 <= level.next < level.entries.len() {
        match position(level.node.children, level.name()) {
            Some(k) => {
                lemma_gather_into_gains_nothing(level, k, io);
            },
            None => {
                let path = joined(level.dir, level.entries[level.next].name);
                let run = created(level.name(), path, io);
                lemma_created_gains_nothing(level.name(), path, io);
                match run.out {
                    Outcome::Done(None) => {
                        lemma_gather_gains_nothing(level.passed(false), run.io);
                    },
                    Outcome::Done(Some(node)) => {
                        lemma_gather_into_gains_nothing(
                            level.with(level.node.children.push(node)),
                            level.node.children.len() as int,
                            run.io,
                        );
                    },
                    _ => {},
                }
            },
        }
    }
}

/// Going on with the child for an entry uses up replies.
proof fn lemma_gather_into_gains_nothing(level: Level, k: int, io: Io)
    requires
        0 <= level.next < level.entries.len(),
    ensures
        gather_into(level, k, io).io.rest.len() <= io.rest.len(),
    decreases io.rest.len(), 1nat, 4 * level.left() - 2,
{
    reveal(gather);
    reveal(collected);
    let child = level.node.children[k];
    if child.file_type == NodeFileType::Directory {
        let run = collected(child, joined(level.dir, child.name), io);
        lemma_collected_gains_nothing(child, joined(level.dir, child.name), io);
        match run.out {
            Outcome::Done(filled) => {
                let back = level.with(level.node.children.remove(k)).passed(false);
                let back = back.with(back.node.children.insert(k, filled.0));
                lemma_gather_gains_nothing(
                    Level { has_file: back.has_file || filled.1 || filled.0.replace, ..back },
                    run.io,
                );
            },
            _ => {},
        }
    } else {
        lemma_gather_gains_nothing(level.passed(true), io);
    }
}

/// A question whether a directory of a module replaces the device's.
pub struct ReplaceCheck {
    path: Vec<u8>,
    stage: ReplaceStage,
}

enum ReplaceStage {
    Attribute,
    Marker,
}

impl Machine for ReplaceCheck {
    type Value = bool;

    closed spec fn after(self, reply: ReplyView, io: Io) -> Run<bool> {
        match self.stage {
            ReplaceStage::Attribute => replaces_by(self.path@, reply, io),
            ReplaceStage::Marker => done(io, flag_of(reply)),
        }
    }
}

/// A node that is being made for the file at `path`.
pub struct NewModule {
    name: Vec<u8>,
    path: Vec<u8>,
    stage: NewStage,
}

enum NewStage {
    Metadata,
    Replace(ReplaceCheck),
}

impl Machine for NewModule {
    type Value = MaybeNode;

    closed spec fn after(self, reply: ReplyView, io: Io) -> Run<Option<NodeView>> {
        match self.stage {
            NewStage::Metadata => created_of(self.name@, self.path@, reply, io),
            NewStage::Replace(check) => created_dir(self.name@, self.path@, check.after(reply, io)),
        }
    }
}

/// A directory whose files are being collected.
pub struct Collecting {
    node: Node,
    dir: Vec<u8>,
    entries: Vec<Entry<Vec<u8>>>,
    next: usize,
    has_file: bool,
    stage: CollectStage,
}

enum CollectStage {
    Listing,
    Creating(NewModule),
    Inside(Box<Collecting>, usize),
}

spec fn level_of(m: Collecting) -> Level {
    Level {
        node: m.node@,
        dir: m.dir@,
        entries: entries_view(m.entries@),
        next: m.next as int,
        has_file: m.has_file,
    }
}

/// Starts to collect when the entries are known.
pub open spec fn collected_of(node: NodeView, dir: Text, reply: ReplyView, io: Io) -> Run<
    (NodeView, bool),
> {
    match listing_of(reply) {
        Ok(entries) => gather(Level { node, dir, entries, next: 0, has_file: false }, io),
        Err(e) => fail(io, e),
    }
}

#[verifier::opaque]
spec fn collecting_after(m: Collecting, reply: ReplyView, io: Io) -> Run<(NodeView, bool)>
    decreases m,
{
    match m.stage {
        CollectStage::Listing => collected_of(m.node@, m.dir@, reply, io),
        CollectStage::Creating(new) => gather_new(level_of(m), new.after(reply, io)),
        CollectStage::Inside(inner, k) => gather_back(
            level_of(m),
            k as int,
            collecting_after(*inner, reply, io),
        ),
    }
}

impl Machine for Collecting {
    type Value = (Node, bool);

    closed spec fn after(self, reply: ReplyView, io: Io) -> Run<(NodeView, bool)> {
        collecting_after(self, reply, io)
    }
}

/// Only the letter itself reads as that letter.
proof fn lemma_reads_as_y(value: Text, text: Text)
    requires
        valid_utf8(value) ==> text == value,
        !valid_utf8(value) ==> occurs_in(seq![0xefu8, 0xbfu8, 0xbdu8], text),
    ensures
        text == "y".spec_bytes() <==> value == "y".spec_bytes(),
{
    reveal_strlit("y");
    is_ascii_spec_bytes("y");
    encode_utf8_valid_utf8("y"@);
}

impl ReplaceCheck {
    /// Goes on with the host's reply.
    pub fn resume(self, reply: Reply) -> (turn: Turn<ReplaceCheck>)
        ensures
            forall|io: Io| #[trigger] turn.means(io) == self.after(reply@, io),
    {
        match self.stage {
            ReplaceStage::Attribute => {
                let marked = match reply.into_data() {
                    Ok(value) => {
                        let text = lossy(value.as_slice());
                        proof {
                            lemma_reads_as_y(value@, text@);
                        }
                        same(text.as_slice(), "y".as_bytes())
                    },
                    Err(_) => false,
                };
                if marked {
                    Turn::Done(true)
                } else {
                    let marker = join(self.path.as_slice(), ".replace".as_bytes());
                    Turn::Ask(
                        Request::Exists(marker),
                        ReplaceCheck { path: self.path, stage: ReplaceStage::Marker },
                    )
                }
            },
            ReplaceStage::Marker => Turn::Done(reply.into_flag()),
        }
    }
}

/// A new node from the question on whether it replaces the device's directory.
fn new_dir(name: Vec<u8>, path: Vec<u8>, turn: Turn<ReplaceCheck>) -> (result: Turn<NewModule>)
    ensures
        forall|io: Io| #[trigger] result.means(io) == created_dir(name@, path@, turn.means(io)),
{
    match turn {
        Turn::Ask(request, check) => Turn::Ask(
            request,
            NewModule { name, path, stage: NewStage::Replace(check) },
        ),
        Turn::Done(replace) => Turn::Done(
            MaybeNode(Some(Node::of_module(name, NodeFileType::Directory, path, replace))),
        ),
        Turn::Fail(e) => Turn::Fail(e),
    }
}

impl NewModule {
    /// Goes on with the host's reply.
    pub fn resume(self, reply: Reply) -> (turn: Turn<NewModule>)
        ensures
            forall|io: Io| #[trigger] turn.means(io) == self.after(reply@, io),
    {
        match self.stage {
            NewStage::Metadata => match reply.into_stat() {
                Ok(metadata) => {
                    let file_type = NodeFileType::of_module_file(metadata);
                    if file_type == NodeFileType::Directory {
                        let turn = Node::dir_is_replace(self.path.as_slice());
                        new_dir(self.name, self.path, turn)
                    } else {
                        Turn::Done(
                            MaybeNode(
                                Some(Node::of_module(self.name, file_type, self.path, false)),
                            ),
                        )
                    }
                },
                Err(_) => Turn::Done(MaybeNode(None)),
            },
            NewStage::Replace(check) => new_dir(self.name, self.path, check.resume(reply)),
        }
    }
}

/// Asks for the entries of the directory `dir`, to be collected as children of the node.
fn listing_for(node: Node, dir: &[u8]) -> (pair: (Request<Vec<u8>>, Collecting))
    ensures
        pair.0@ == Request::ListDir(dir@),
        forall|reply: ReplyView, io: Io| #[trigger]
            pair.1.after(reply, io) == collected_of(node@, dir@, reply, io),
{
    let machine = Collecting {
        node,
        dir: copied(dir),
        entries: Vec::new(),
        next: 0,
        has_file: false,
        stage: CollectStage::Listing,
    };
    reveal(collecting_after);
    (Request::ListDir(copied(dir)), machine)
}

/// Pauses while the child at `k`, a directory, is filled.
fn collect_inside(
    node: Node,
    dir: Vec<u8>,
    entries: Vec<Entry<Vec<u8>>>,
    next: usize,
    has_file: bool,
    k: usize,
) -> (result: Turn<Collecting>)
    requires
        next < entries.len(),
        k < node.children.len(),
        node.children@[k as int].file_type == NodeFileType::Directory,
    ensures
        forall|io: Io| #[trigger]
            result.means(io) == gather_into(
                Level {
                    node: node@,
                    dir: dir@,
                    entries: entries_view(entries@),
                    next: next as int,
                    has_file,
                },
                k as int,
                io,
            ),
{
    let ghost level = Level {
        node: node@,
        dir: dir@,
        entries: entries_view(entries@),
        next: next as int,
        has_file,
    };
    let mut node = node;
    proof {
        lemma_children_view(node);
        assert(level.node.children[k as int] == node.children@[k as int]@);
    }
    let child = node.children.remove(k);
    let ghost child0 = child@;
    proof {
        lemma_children_view(node);
        assert(nodes_view(node.children@) =~= level.node.children.remove(k as int));
    }
    let inside = join(dir.as_slice(), child.name.as_slice());
    let (request, inner) = listing_for(child, inside.as_slice());
    let machine = Collecting {
        node,
        dir,
        entries,
        next: next + 1,
        has_file,
        stage: CollectStage::Inside(Box::new(inner), k),
    };
    let ghost back = level.with(level.node.children.remove(k as int)).passed(false);
    assert(level_of(machine) == back);
    assert forall|reply: ReplyView, io: Io| #[trigger]
        machine.after(reply, io) == gather_back(back, k as int, inner.after(reply, io)) by {
        reveal(collecting_after);
    }
    let result = Turn::Ask(request, machine);
    assert forall|io: Io| #[trigger] result.means(io) == gather_into(level, k as int, io) by {
        lemma_collected_gains_nothing(child0, inside@, io);
        reveal(collected);
        reveal(gather);
    }
    result
}

/// Pauses while the node for the next entry is made.
fn collect_creating(
    node: Node,
    dir: Vec<u8>,
    entries: Vec<Entry<Vec<u8>>>,
    next: usize,
    has_file: bool,
    request: Request<Vec<u8>>,
    new: NewModule,
) -> (result: Turn<Collecting>)
    requires
        next < entries.len(),
    ensures
        forall|io: Io| #[trigger]
            result.means(io) == gather_new(
                Level {
                    node: node@,
                    dir: dir@,
                    entries: entries_view(entries@),
                    next: next as int,
                    has_file,
                },
                Turn::Ask(request, new).means(io),
            ),
{
    let machine = Collecting {
        node,
        dir,
        entries,
        next,
        has_file,
        stage: CollectStage::Creating(new),
    };
    assert forall|reply: ReplyView, io: Io| #[trigger]
        machine.after(reply, io) == gather_new(level_of(machine), new.after(reply, io)) by {
        reveal(collecting_after);
    }
    Turn::Ask(request, machine)
}

/// Collects the entries from `next` on.
#[verifier::loop_isolation(false)]
fn collect_from(
    node: Node,
    dir: Vec<u8>,
    entries: Vec<Entry<Vec<u8>>>,
    next: usize,
    has_file: bool,
) -> (result: Turn<Collecting>)
    ensures
        forall|io: Io| #[trigger]
            result.means(io) == gather(
                Level {
                    node: node@,
                    dir: dir@,
                    entries: entries_view(entries@),
                    next: next as int,
                    has_file,
                },
                io,
            ),
{
    let ghost start = Level {
        node: node@,
        dir: dir@,
        entries: entries_view(entries@),
        next: next as int,
        has_file,
    };
    proof {
        lemma_children_view(node);
    }
    let mut i: usize = next;
    let mut has_file = has_file;
    while i < entries.len()
        invariant
            forall|io: Io| #[trigger]
                gather(start, io) == gather(
                    Level { next: i as int, has_file, ..start },
                    io,
                ),
        decreases entries.len() - i,
    {
        let ghost level = Level { next: i as int, has_file, ..start };
        assert(level.entries[i as int] == entries@[i as int]@);
        let name = lossy(entries[i].name.as_slice());
        match find(&node.children, name.as_slice()) {
            Some(k) => {
                assert(level.node.children[k as int] == node.children@[k as int]@);
                assert forall|io: Io| #[trigger]
                    gather(level, io) == gather_into(level, k as int, io) by {
                    reveal(gather);
                }
                if node.children[k].file_type == NodeFileType::Directory {
                    return collect_inside(node, dir, entries, i, has_file, k);
                }
                assert forall|io: Io| #[trigger]
                    gather(level, io) == gather(level.passed(true), io) by {
                    reveal(gather);
                    assert(gather(level, io) == gather_into(level, k as int, io));
                }
                has_file = true;
            },
            None => {
                let path = join(dir.as_slice(), entries[i].name.as_slice());
                assert forall|io: Io| #[trigger]
                    gather(level, io) == gather_new(level, created(name@, path@, io)) by {
                    reveal(gather);
                }
                let (request, new) = Node::metadata_for(name, path);
                return collect_creating(node, dir, entries, i, has_file, request, new);
            },
        }
        i += 1;
    }
    let result: Turn<Collecting> = Turn::Done((node, has_file));
    assert forall|io: Io| #[trigger] result.means(io) == gather(start, io) by {
        reveal(gather);
    }
    result
}

/// Collects the entries from where the node for the next one is being made.
fn collect_new(
    node: Node,
    dir: Vec<u8>,
    entries: Vec<Entry<Vec<u8>>>,
    next: usize,
    has_file: bool,
    turn: Turn<NewModule>,
) -> (result: Turn<Collecting>)
    requires
        next < entries.len(),
    ensures
        forall|io: Io| #[trigger]
            result.means(io) == gather_new(
                Level {
                    node: node@,
                    dir: dir@,
                    entries: entries_view(entries@),
                    next: next as int,
                    has_file,
                },
                turn.means(io),
            ),
{
    let ghost level = Level {
        node: node@,
        dir: dir@,
        entries: entries_view(entries@),
        next: next as int,
        has_file,
    };
    let ghost here = turn;
    match turn {
        Turn::Ask(request, new) => collect_creating(
            node,
            dir,
            entries,
            next,
            has_file,
            request,
            new,
        ),
        Turn::Done(MaybeNode(None)) => {
            assert forall|io: Io| #[trigger]
                gather_new(level, here.means(io)) == gather(level.passed(false), io) by {
                reveal(gather);
            }
            collect_from(node, dir, entries, next + 1, has_file)
        },
        Turn::Done(MaybeNode(Some(child))) => {
            let mut node = node;
            let k: usize = node.children.len();
            let is_dir = child.file_type == NodeFileType::Directory;
            proof {
                lemma_children_view(node);
            }
            node.children.push(child);
            let ghost grown = level.with(level.node.children.push(child@));
            proof {
                lemma_children_view(node);
                assert(nodes_view(node.children@) =~= grown.node.children);
                assert(node@ == grown.node);
            }
            assert forall|io: Io| #[trigger]
                gather_new(level, here.means(io)) == gather_into(grown, k as int, io) by {
                reveal(gather);
            }
            if is_dir {
                collect_inside(node, dir, entries, next, has_file, k)
            } else {
                assert forall|io: Io| #[trigger]
                    gather_into(grown, k as int, io) == gather(grown.passed(true), io) by {
                    reveal(gather);
                }
                collect_from(node, dir, entries, next + 1, true)
            }
        },
        Turn::Fail(e) => Turn::Fail(e),
    }
}

/// Collects the entries from where the child that belongs at `k` is being filled.
fn collect_back(
    node: Node,
    dir: Vec<u8>,
    entries: Vec<Entry<Vec<u8>>>,
    next: usize,
    has_file: bool,
    k: usize,
    turn: Turn<Collecting>,
) -> (result: Turn<Collecting>)
    requires
        k <= node.children.len(),
    ensures
        forall|io: Io| #[trigger]
            result.means(io) == gather_back(
                Level {
                    node: node@,
                    dir: dir@,
                    entries: entries_view(entries@),
                    next: next as int,
                    has_file,
                },
                k as int,
                turn.means(io),
            ),
{
    let ghost level = Level {
        node: node@,
        dir: dir@,
        entries: entries_view(entries@),
        next: next as int,
        has_file,
    };
    let ghost here = turn;
    match turn {
        Turn::Ask(request, inner) => {
            let machine = Collecting {
                node,
                dir,
                entries,
                next,
                has_file,
                stage: CollectStage::Inside(Box::new(inner), k),
            };
            assert forall|reply: ReplyView, io: Io| #[trigger]
                machine.after(reply, io) == gather_back(
                    level,
                    k as int,
                    inner.after(reply, io),
                ) by {
                reveal(collecting_after);
                assert(level_of(machine) == level);
            }
            Turn::Ask(request, machine)
        },
        Turn::Done(filled) => {
            let (child, inside) = filled;
            let mut node = node;
            proof {
                lemma_children_view(node);
            }
            let replace = child.replace;
            node.children.insert(k, child);
            let ghost whole = level.with(level.node.children.insert(k as int, child@));
            proof {
                lemma_children_view(node);
                assert(nodes_view(node.children@) =~= whole.node.children);
                assert(node@ == whole.node);
            }
            assert forall|io: Io| #[trigger]
                gather_back(level, k as int, here.means(io)) == gather(
                    Level { has_file: has_file || inside || replace, ..whole },
                    io,
                ) by {
                reveal(gather);
            }
            collect_from(node, dir, entries, next, has_file || inside || replace)
        },
        Turn::Fail(e) => Turn::Fail(e),
    }
}

impl Collecting {
    /// Whether a pause is one that can be gone on from.
    #[verifier::type_invariant]
    spec fn in_range(self) -> bool {
        match self.stage {
            CollectStage::Listing => true,
            CollectStage::Creating(_) => self.next < self.entries@.len(),
            CollectStage::Inside(_, k) => k <= self.node.children@.len(),
        }
    }

    /// Goes on with the host's reply.
    pub fn resume(self, reply: Reply) -> (turn: Turn<Collecting>)
        ensures
            forall|io: Io| #[trigger] turn.means(io) == self.after(reply@, io),
        decreases self,
    {
        proof {
            use_type_invariant(&self);
        }
        match self.stage {
            CollectStage::Listing => {
                assert forall|io: Io| true implies #[trigger] self.after(reply@, io)
                    == collected_of(self.node@, self.dir@, reply@, io) by {
                    reveal(collecting_after);
                }
                match reply.into_listing() {
                    Ok(entries) => collect_from(self.node, self.dir, entries, 0, false),
                    Err(e) => Turn::Fail(e),
                }
            },
            CollectStage::Creating(new) => {
                assert forall|io: Io| true implies #[trigger] self.after(reply@, io)
                    == gather_new(level_of(self), new.after(reply@, io)) by {
                    reveal(collecting_after);
                }
                collect_new(
                    self.node,
                    self.dir,
                    self.entries,
                    self.next,
                    self.has_file,
                    new.resume(reply),
                )
            },
            CollectStage::Inside(inner, k) => {
                assert forall|io: Io| true implies #[trigger] self.after(reply@, io)
                    == gather_back(level_of(self), k as int, inner.after(reply@, io)) by {
                    reveal(collecting_after);
                }
                let turn = (*inner).resume(reply);
                collect_back(
                    self.node,
                    self.dir,
                    self.entries,
                    self.next,
                    self.has_file,
                    k,
                    turn,
                )
            },
        }
    }
}

impl Node {
    /// Starts to find out whether a directory of a module replaces the device's.
    pub fn dir_is_replace(path: &[u8]) -> (turn: Turn<ReplaceCheck>)
        ensures
            forall|io: Io| #[trigger] turn.means(io) == replaces(path@, io),
    {
        Turn::Ask(
            Request::GetXattr {
                path: copied(path),
                name: copied("trusted.overlay.opaque".as_bytes()),
            },
            ReplaceCheck { path: copied(path), stage: ReplaceStage::Attribute },
        )
    }

    /// Asks for the metadata of the file that a module keeps at `path`.
    fn metadata_for(name: Vec<u8>, path: Vec<u8>) -> (pair: (Request<Vec<u8>>, NewModule))
        ensures
            forall|io: Io| #[trigger]
                Turn::Ask(pair.0, pair.1).means(io) == created(name@, path@, io),
    {
        let request = Request::Lstat(copied(path.as_slice()));
        (request, NewModule { name, path, stage: NewStage::Metadata })
    }

    /// Starts to make the node for the file that a module keeps at `path`.
    pub fn new_module(name: Vec<u8>, path: Vec<u8>) -> (turn: Turn<NewModule>)
        ensures
            forall|io: Io| #[trigger] turn.means(io) == created(name@, path@, io),
    {
        let (request, new) = Node::metadata_for(name, path);
        Turn::Ask(request, new)
    }

    /// Starts to collect the files of the directory `dir` as children of the node.
    pub fn collect_module_files(self, dir: &[u8]) -> (turn: Turn<Collecting>)
        ensures
            forall|io: Io| #[trigger] turn.means(io) == collected(self@, dir@, io),
    {
        let (request, machine) = listing_for(self, dir);
        let turn = Turn::Ask(request, machine);
        assert forall|io: Io| #[trigger] turn.means(io) == collected(self@, dir@, io) by {
            reveal(collected);
            reveal(gather);
        }
        turn
    }
}

} // verus!
