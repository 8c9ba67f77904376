//! Mounting a tree of nodes step by step, together with the host.

use vstd::prelude::*;

use crate::bytes::{copied, join, lossy, lossy_text};
use crate::mount::{
    dir_decided, dir_filled, dir_looked_at, dir_prepared, dir_walked, file_steps, fill, fill_on,
    finish_steps, handled, leaving, leftover, lemma_fill_on, lemma_fill_step, lemma_walk_on,
    lemma_walk_step, mounted, prepare_steps, symlink_steps, tmpfs_decision, visited, walk, walk_on,
    weigh, weighed, with_skipped, without,
};
use crate::node::{find, lemma_children_view, needs_tmpfs, nodes_view, Node, NodeFileType, NodeView};
use crate::protocol::{
    ask, done, entries_view, fail, listing_of, noted, waiting, Entry, Error, Io, Machine, Outcome,
    Reply, ReplyView, Request, Run, Task, Text, Turn,
};
use crate::script::{
    clone_symlink, do_task, mirror_steps, mount_mirror, must_succeed, perform, perform_steps,
    prepare_tmpfs_skeleton, steps_view, text_of, Script, Step,
};

verus! {

/// A decision on a directory that waits for what is known of the device's file at `next`.
pub struct Weighing {
    path: Vec<u8>,
    node: Node,
    next: usize,
    file_type: NodeFileType,
}

impl Machine for Weighing {
    type Value = (bool, Node);

    closed spec fn after(self, reply: ReplyView, io: Io) -> Run<(bool, NodeView)> {
        weighed(
            self.path@,
            self.node@,
            self.next as int,
            needs_tmpfs(self.file_type, reply),
            io,
        )
    }
}

/// Marks the child at `i` to be left out.
fn skip_child(node: &mut Node, i: usize)
    requires
        i < old(node).children.len(),
    ensures
        final(node)@ == with_skipped(old(node)@, i as int),
        final(node).children.len() == old(node).children.len(),
{
    let ghost before = *node;
    proof {
        lemma_children_view(before);
    }
    let mut child = node.children.remove(i);
    let ghost was = child;
    child.skip = true;
    proof {
        lemma_children_view(was);
        lemma_children_view(child);
        assert(child@ =~= NodeView { skip: true, ..was@ });
        assert(was@ == before@.children[i as int]);
    }
    node.children.insert(i, child);
    proof {
        lemma_children_view(*node);
        assert(node@.children =~= with_skipped(before@, i as int).children);
    }
}

/// Holds the children from `next` on against the device's files.
#[verifier::loop_isolation(false)]
fn weigh_from(path: Vec<u8>, node: Node, next: usize) -> (turn: Turn<Weighing>)
    ensures
        forall|io: Io| #[trigger] turn.means(io) == weigh(path@, node@, next as int, io),
{
    let ghost node0 = node@;
    let ghost next0 = next as int;
    let mut node = node;
    let mut i: usize = next;
    while i < node.children.len()
        invariant
            forall|io: Io| #[trigger]
                weigh(path@, node0, next0, io) == weigh(path@, node@, i as int, io),
        decreases node.children.len() - i,
    {
        proof {
            lemma_children_view(node);
            assert(node@.children[i as int] == node.children@[i as int]@);
        }
        let real_path = join(path.as_slice(), node.children[i].name.as_slice());
        let file_type = node.children[i].file_type;
        match file_type.probe(real_path.as_slice()) {
            Some(request) => {
                return Turn::Ask(request, Weighing { path, node, next: i, file_type });
            },
            None => {
                if node.origin.is_some() {
                    return Turn::Done((true, node));
                }
                skip_child(&mut node, i);
            },
        }
        i += 1;
    }
    proof {
        lemma_children_view(node);
    }
    Turn::Done((false, node))
}

/// Starts to decide whether the directory `path` has to be built anew so that the node's children
/// can be mounted in it. The node comes back with those children marked that are to be left out.
pub fn should_create_tmpfs(path: &[u8], node: Node, has_tmpfs: bool) -> (turn: Turn<Weighing>)
    ensures
        forall|io: Io| #[trigger]
            turn.means(io) == tmpfs_decision(path@, node@, has_tmpfs, io),
{
    if has_tmpfs {
        return Turn::Done((false, node));
    }
    if node.replace && node.origin.is_some() {
        return Turn::Done((true, node));
    }
    weigh_from(copied(path), node, 0)
}

impl Weighing {
    /// Goes on with the host's reply.
    pub fn resume(self, reply: Reply) -> (turn: Turn<Weighing>)
        ensures
            forall|io: Io| #[trigger] turn.means(io) == self.after(reply@, io),
    {
        let mut node = self.node;
        let i: usize = self.next;
        proof {
            lemma_children_view(node);
        }
        let needed = self.file_type.needs_tmpfs_vs_real(reply);
        if needed && node.origin.is_some() {
            return Turn::Done((true, node));
        }
        if i >= node.children.len() {
            return Turn::Done((false, node));
        }
        if needed {
            skip_child(&mut node, i);
        }
        weigh_from(self.path, node, i + 1)
    }
}

/// Nodes that are handed on.
pub struct Children(pub Vec<Node>);

impl View for Children {
    type V = Seq<NodeView>;

    open spec fn view(&self) -> Seq<NodeView> {
        nodes_view(self.0@)
    }
}

/// A node that is being mounted.
pub struct Mounting {
    path: Vec<u8>,
    work: Vec<u8>,
    stage: MountStage,
}

/// What a node that is being mounted waits for.
enum MountStage {
    /// The last steps.
    Last(Script),
    /// The decision whether the directory has to be built anew.
    Deciding(Weighing, bool),
    /// The steps before the directory is filled.
    Preparing(Script, Node, bool, bool),
    /// The reply whether the device has the directory.
    Looking(Node, bool, bool),
    /// The device's entries.
    Walking(Box<Walking>, bool, bool, bool),
    /// The children that are left.
    Filling(Box<Filling>, bool),
}

/// A walk through the device's entries of a directory.
pub struct Walking {
    path: Vec<u8>,
    work: Vec<u8>,
    children: Vec<Node>,
    entries: Vec<Entry<Vec<u8>>>,
    next: usize,
    has_tmpfs: bool,
    stage: WalkStage,
}

/// What a walk through the device's entries waits for.
enum WalkStage {
    Listing,
    Visiting(Visiting),
}

/// One of the device's entries that is being dealt with.
pub struct Visiting {
    task: Task<Vec<u8>>,
    stage: VisitStage,
}

/// What becomes of one of the device's entries.
enum VisitStage {
    Child(Box<Mounting>),
    Mirror(Script),
}

/// Children that are mounted one after the other.
pub struct Filling {
    path: Vec<u8>,
    work: Vec<u8>,
    children: Vec<Node>,
    has_tmpfs: bool,
    task: Task<Vec<u8>>,
    child: Box<Mounting>,
}

/// Starts on the device's entries when they are known.
pub open spec fn walk_listed(
    path: Text,
    work: Text,
    children: Seq<NodeView>,
    has_tmpfs: bool,
    reply: ReplyView,
    io: Io,
) -> Run<Seq<NodeView>> {
    match listing_of(reply) {
        Ok(entries) => leaving(
            walk(path, work, children, entries, 0, has_tmpfs, io),
            leftover(children, entries, 0),
        ),
        Err(e) => fail(io, e),
    }
}

/// Deals with all of the device's entries of a directory; the children that have no counterpart
/// there are left.
pub open spec fn existing_entries(
    path: Text,
    work: Text,
    children: Seq<NodeView>,
    has_tmpfs: bool,
    io: Io,
) -> Run<Seq<NodeView>> {
    let run = ask(io, Request::ListDir(path));
    match run.out {
        Outcome::Done(reply) => walk_listed(path, work, children, has_tmpfs, reply, run.io),
        Outcome::Fail(e) => fail(run.io, e),
        Outcome::Waiting => waiting(run.io),
    }
}

#[verifier::opaque]
spec fn mounting_after(m: Mounting, reply: ReplyView, io: Io) -> Run<()>
    decreases m,
{
    match m.stage {
        MountStage::Last(script) => script.after(reply, io),
        MountStage::Deciding(weighing, has_tmpfs) => dir_decided(
            m.path@,
            m.work@,
            has_tmpfs,
            weighing.after(reply, io),
        ),
        MountStage::Preparing(script, node, create, has_tmpfs) => dir_prepared(
            m.path@,
            m.work@,
            node@,
            create,
            has_tmpfs,
            script.after(reply, io),
        ),
        MountStage::Looking(node, create, has_tmpfs) => dir_looked_at(
            m.path@,
            m.work@,
            node@,
            create,
            has_tmpfs,
            done(io, reply),
        ),
        MountStage::Walking(walking, replaced_root, create, has_tmpfs) => dir_walked(
            m.path@,
            m.work@,
            replaced_root,
            create,
            has_tmpfs,
            walking_after(*walking, reply, io),
        ),
        MountStage::Filling(filling, create) => dir_filled(
            m.path@,
            m.work@,
            create,
            filling_after(*filling, reply, io),
        ),
    }
}

#[verifier::opaque]
spec fn walking_after(m: Walking, reply: ReplyView, io: Io) -> Run<Seq<NodeView>>
    decreases m,
{
    let children = nodes_view(m.children@);
    let entries = entries_view(m.entries@);
    match m.stage {
        WalkStage::Listing => walk_listed(m.path@, m.work@, children, m.has_tmpfs, reply, io),
        WalkStage::Visiting(visiting) => leaving(
            walk_on(
                m.path@,
                m.work@,
                children,
                entries,
                m.next as int,
                m.has_tmpfs,
                visiting_after(visiting, reply, io),
            ),
            leftover(children, entries, m.next as int),
        ),
    }
}

#[verifier::opaque]
spec fn visiting_after(m: Visiting, reply: ReplyView, io: Io) -> Run<()>
    decreases m,
{
    match m.stage {
        VisitStage::Child(child) => noted(m.task@, mounting_after(*child, reply, io)),
        VisitStage::Mirror(script) => noted(m.task@, script.after(reply, io)),
    }
}

#[verifier::opaque]
spec fn filling_after(m: Filling, reply: ReplyView, io: Io) -> Run<()>
    decreases m,
{
    fill_on(
        m.path@,
        m.work@,
        nodes_view(m.children@),
        m.has_tmpfs,
        noted(m.task@, mounting_after(*m.child, reply, io)),
    )
}

impl Machine for Mounting {
    type Value = ();

    closed spec fn after(self, reply: ReplyView, io: Io) -> Run<()> {
        mounting_after(self, reply, io)
    }
}

impl Machine for Walking {
    type Value = Children;

    closed spec fn after(self, reply: ReplyView, io: Io) -> Run<Seq<NodeView>> {
        walking_after(self, reply, io)
    }
}

impl Machine for Visiting {
    type Value = ();

    closed spec fn after(self, reply: ReplyView, io: Io) -> Run<()> {
        visiting_after(self, reply, io)
    }
}

impl Machine for Filling {
    type Value = ();

    closed spec fn after(self, reply: ReplyView, io: Io) -> Run<()> {
        filling_after(self, reply, io)
    }
}

/// A path of its own with the same bytes.
fn copied_origin(origin: &Option<Vec<u8>>) -> (copy: Option<Vec<u8>>)
    ensures
        text_of(copy) == text_of(*origin),
{
    match origin {
        Some(path) => Some(copied(path.as_slice())),
        None => None,
    }
}

/// The steps that mount a file.
fn file_list(path: Vec<u8>, work: Vec<u8>, origin: Option<Vec<u8>>, has_tmpfs: bool) -> (steps: Vec<
    Step<Vec<u8>>,
>)
    ensures
        steps_view(steps@) == file_steps(path@, work@, text_of(origin), has_tmpfs),
{
    let mut steps: Vec<Step<Vec<u8>>> = Vec::new();
    let target = if has_tmpfs {
        steps.push(must_succeed(Request::CreateFile(copied(work.as_slice()))));
        work
    } else {
        copied(path.as_slice())
    };
    match origin {
        Some(source) => {
            steps.push(must_succeed(Request::BindMount { source, target }));
        },
        None => {
            steps.push(Step::Abort(Error::RootFile(path)));
        },
    }
    assert(steps_view(steps@) =~= file_steps(path@, work@, text_of(origin), has_tmpfs));
    steps
}

/// The steps that mount a symbolic link.
fn symlink_list(path: Vec<u8>, work: &[u8], origin: Option<Vec<u8>>) -> (steps: Vec<Step<Vec<u8>>>)
    ensures
        steps_view(steps@) == symlink_steps(path@, work@, text_of(origin)),
{
    let mut steps: Vec<Step<Vec<u8>>> = Vec::new();
    match origin {
        Some(source) => {
            steps.push(clone_symlink(source.as_slice(), work));
        },
        None => {
            steps.push(Step::Abort(Error::RootSymlink(path)));
        },
    }
    assert(steps_view(steps@) =~= symlink_steps(path@, work@, text_of(origin)));
    steps
}

/// The steps before a directory is filled.
fn prepare_list(
    path: &[u8],
    work: &[u8],
    origin: Option<Vec<u8>>,
    create: bool,
    has_tmpfs: bool,
) -> (steps: Vec<Step<Vec<u8>>>)
    ensures
        steps_view(steps@) == prepare_steps(path@, work@, text_of(origin), create, has_tmpfs),
{
    let mut steps: Vec<Step<Vec<u8>>> = if has_tmpfs {
        prepare_tmpfs_skeleton(path, work, origin)
    } else {
        Vec::new()
    };
    if create {
        let request = Request::BindMount { source: copied(work), target: copied(work) };
        steps.push(do_task(Task::BindSelf, request));
    }
    assert(steps_view(steps@) =~= prepare_steps(path@, work@, text_of(origin), create, has_tmpfs));
    steps
}

/// The steps after a directory was filled: where it was built anew, it is moved over the device's
/// and kept private.
fn move_tmpfs_to_target(path: Vec<u8>, work: Vec<u8>, create: bool) -> (steps: Vec<Step<Vec<u8>>>)
    ensures
        steps_view(steps@) == finish_steps(path@, work@, create),
{
    let mut steps: Vec<Step<Vec<u8>>> = Vec::new();
    if create {
        let target = copied(path.as_slice());
        steps.push(do_task(Task::MoveSelf, Request::MoveMount { source: work, target }));
        steps.push(do_task(Task::MakeSelfPrivate, Request::MakePrivate(path)));
    }
    assert(steps_view(steps@) =~= finish_steps(path@, work@, create));
    steps
}

/// What becomes of the result of mounting one child: inside a directory that is built anew an
/// error is handed on, elsewhere it is passed over.
pub fn handle_mount_result(result: Result<(), Error<Vec<u8>>>, has_tmpfs: bool) -> (handled: Result<
    (),
    Error<Vec<u8>>,
>)
    ensures
        has_tmpfs ==> handled == result,
        !has_tmpfs ==> handled is Ok,
{
    if has_tmpfs {
        result
    } else {
        Ok(())
    }
}

/// The last steps of mounting a node.
fn at_last(path: Vec<u8>, work: Vec<u8>, turn: Turn<Script>) -> (result: Turn<Mounting>)
    ensures
        forall|io: Io| #[trigger] result.means(io) == turn.means(io),
{
    reveal(mounting_after);
    match turn {
        Turn::Ask(request, script) => Turn::Ask(
            request,
            Mounting { path, work, stage: MountStage::Last(script) },
        ),
        Turn::Done(_) => Turn::Done(()),
        Turn::Fail(e) => Turn::Fail(e),
    }
}

/// Mounting a directory from the decision on whether it has to be built anew.
fn from_decision(
    path: Vec<u8>,
    work: Vec<u8>,
    has_tmpfs: bool,
    turn: Turn<Weighing>,
) -> (result: Turn<Mounting>)
    ensures
        forall|io: Io| #[trigger]
            result.means(io) == dir_decided(path@, work@, has_tmpfs, turn.means(io)),
{
    reveal(mounting_after);
    match turn {
        Turn::Ask(request, weighing) => Turn::Ask(
            request,
            Mounting { path, work, stage: MountStage::Deciding(weighing, has_tmpfs) },
        ),
        Turn::Done(decision) => {
            let (create, node) = decision;
            let has = has_tmpfs || create;
            let steps = prepare_list(
                path.as_slice(),
                work.as_slice(),
                copied_origin(&node.origin),
                create,
                has,
            );
            from_preparation(path, work, node, create, has, perform_steps(steps))
        },
        Turn::Fail(e) => Turn::Fail(e),
    }
}

/// Mounting a directory from the steps on that come before it is filled.
fn from_preparation(
    path: Vec<u8>,
    work: Vec<u8>,
    node: Node,
    create: bool,
    has_tmpfs: bool,
    turn: Turn<Script>,
) -> (result: Turn<Mounting>)
    ensures
        forall|io: Io| #[trigger]
            result.means(io) == dir_prepared(
                path@,
                work@,
                node@,
                create,
                has_tmpfs,
                turn.means(io),
            ),
{
    reveal(mounting_after);
    match turn {
        Turn::Ask(request, script) => Turn::Ask(
            request,
            Mounting {
                path,
                work,
                stage: MountStage::Preparing(script, node, create, has_tmpfs),
            },
        ),
        Turn::Done(_) => {
            let request = Request::Exists(copied(path.as_slice()));
            Turn::Ask(
                request,
                Mounting { path, work, stage: MountStage::Looking(node, create, has_tmpfs) },
            )
        },
        Turn::Fail(e) => Turn::Fail(e),
    }
}

/// Starts to mount a node in the directory `parent`, whose counterpart on the memory file system
/// is `parent_work`.
pub fn do_magic_mount(
    parent: &[u8],
    parent_work: &[u8],
    node: Node,
    has_tmpfs: bool,
) -> (turn: Turn<Mounting>)
    ensures
        forall|io: Io| #[trigger]
            turn.means(io) == mounted(parent@, parent_work@, node@, has_tmpfs, io),
{
    reveal(mounted);
    let path = join(parent, node.name.as_slice());
    let work = join(parent_work, node.name.as_slice());
    match node.file_type {
        NodeFileType::RegularFile => {
            let steps = file_list(
                copied(path.as_slice()),
                copied(work.as_slice()),
                node.origin,
                has_tmpfs,
            );
            at_last(path, work, perform_steps(steps))
        },
        NodeFileType::Symlink => {
            let steps = symlink_list(copied(path.as_slice()), work.as_slice(), node.origin);
            at_last(path, work, perform_steps(steps))
        },
        NodeFileType::Directory => {
            let turn = should_create_tmpfs(path.as_slice(), node, has_tmpfs);
            from_decision(path, work, has_tmpfs, turn)
        },
        NodeFileType::Whiteout => Turn::Done(()),
    }
}

/// Mounting a child in the place of one of the device's entries.
fn visit_child(task: Task<Vec<u8>>, turn: Turn<Mounting>) -> (result: Turn<Visiting>)
    ensures
        forall|io: Io| #[trigger] result.means(io) == noted(task@, turn.means(io)),
{
    match turn {
        Turn::Ask(request, mounting) => {
            let visiting = Visiting { task, stage: VisitStage::Child(Box::new(mounting)) };
            assert forall|reply: ReplyView, io: Io| #[trigger]
                visiting.after(reply, io) == noted(task@, mounting.after(reply, io)) by {
                reveal(visiting_after);
                reveal(mounting_after);
            }
            Turn::Ask(request, visiting)
        },
        Turn::Done(_) => Turn::Done(()),
        Turn::Fail(e) => Turn::Fail(Error::Within(task, Box::new(e))),
    }
}

/// Mirroring one of the device's entries.
fn visit_mirror(task: Task<Vec<u8>>, turn: Turn<Script>) -> (result: Turn<Visiting>)
    ensures
        forall|io: Io| #[trigger] result.means(io) == noted(task@, turn.means(io)),
{
    reveal(visiting_after);
    match turn {
        Turn::Ask(request, script) => Turn::Ask(
            request,
            Visiting { task, stage: VisitStage::Mirror(script) },
        ),
        Turn::Done(_) => Turn::Done(()),
        Turn::Fail(e) => Turn::Fail(Error::Within(task, Box::new(e))),
    }
}

/// Starts to deal with one of the device's entries. The child of that name is taken out.
fn visit(
    path: &[u8],
    work: &[u8],
    children: &mut Vec<Node>,
    entry: &Entry<Vec<u8>>,
    has_tmpfs: bool,
) -> (turn: Turn<Visiting>)
    ensures
        forall|io: Io| #[trigger]
            turn.means(io) == visited(
                path@,
                work@,
                nodes_view(old(children)@),
                entry@,
                has_tmpfs,
                io,
            ),
        nodes_view(final(children)@) == without(
            nodes_view(old(children)@),
            lossy_text(entry@.name),
        ),
{
    let ghost before = nodes_view(children@);
    let name = lossy(entry.name.as_slice());
    match find(children, name.as_slice()) {
        Some(k) => {
            let child = children.remove(k);
            assert(before[k as int] == child@);
            assert(before.remove(k as int) =~= nodes_view(children@));
            assert forall|io: Io| #[trigger]
                visited(path@, work@, before, entry@, has_tmpfs, io) == if child.skip {
                    done(io, ())
                } else {
                    noted(
                        Task::MagicMount { path: path@, name: name@ },
                        mounted(path@, work@, child@, has_tmpfs, io),
                    )
                } by {
                reveal(visited);
                reveal(mounted);
            }
            if child.skip {
                Turn::Done(())
            } else {
                let task = Task::MagicMount { path: copied(path), name };
                visit_child(task, do_magic_mount(path, work, child, has_tmpfs))
            }
        },
        None => {
            assert forall|io: Io| #[trigger]
                visited(path@, work@, before, entry@, has_tmpfs, io) == if has_tmpfs {
                    noted(
                        Task::MountMirror { path: path@, name: name@ },
                        perform(mirror_steps(path@, work@, entry@), io),
                    )
                } else {
                    done(io, ())
                } by {
                reveal(visited);
            }
            if has_tmpfs {
                let task = Task::MountMirror { path: copied(path), name };
                visit_mirror(task, mount_mirror(path, work, entry))
            } else {
                Turn::Done(())
            }
        },
    }
}

/// A walk through the device's entries that waits for the one before `next`.
fn pause_walk(
    path: Vec<u8>,
    work: Vec<u8>,
    children: Vec<Node>,
    entries: Vec<Entry<Vec<u8>>>,
    next: usize,
    has_tmpfs: bool,
    request: Request<Vec<u8>>,
    visiting: Visiting,
) -> (turn: Turn<Walking>)
    ensures
        forall|io: Io| #[trigger]
            turn.means(io) == leaving(
                walk_on(
                    path@,
                    work@,
                    nodes_view(children@),
                    entries_view(entries@),
                    next as int,
                    has_tmpfs,
                    Turn::Ask(request, visiting).means(io),
                ),
                leftover(nodes_view(children@), entries_view(entries@), next as int),
            ),
{
    let ghost left = nodes_view(children@);
    let ghost all = entries_view(entries@);
    let ghost here = Turn::Ask(request, visiting);
    let walking = Walking {
        path,
        work,
        children,
        entries,
        next,
        has_tmpfs,
        stage: WalkStage::Visiting(visiting),
    };
    assert forall|reply: ReplyView, io: Io| #[trigger]
        walking.after(reply, io) == leaving(
            walk_on(
                path@,
                work@,
                left,
                all,
                next as int,
                has_tmpfs,
                visiting.after(reply, io),
            ),
            leftover(left, all, next as int),
        ) by {
        reveal(walking_after);
        reveal(visiting_after);
    }
    let turn = Turn::Ask(request, walking);
    assert forall|io: Io| #[trigger]
        turn.means(io) == leaving(
            walk_on(path@, work@, left, all, next as int, has_tmpfs, here.means(io)),
            leftover(left, all, next as int),
        ) by {
        lemma_walk_on(path@, work@, left, all, next as int, has_tmpfs, here.means(io));
    }
    turn
}

/// Deals with the device's entries from `next` on.
#[verifier::loop_isolation(false)]
fn walk_from(
    path: Vec<u8>,
    work: Vec<u8>,
    children: Vec<Node>,
    entries: Vec<Entry<Vec<u8>>>,
    next: usize,
    has_tmpfs: bool,
) -> (turn: Turn<Walking>)
    ensures
        forall|io: Io| #[trigger]
            turn.means(io) == leaving(
                walk(
                    path@,
                    work@,
                    nodes_view(children@),
                    entries_view(entries@),
                    next as int,
                    has_tmpfs,
                    io,
                ),
                leftover(nodes_view(children@), entries_view(entries@), next as int),
            ),
{
    let ghost children0 = nodes_view(children@);
    let ghost all = entries_view(entries@);
    let mut children = children;
    let mut i: usize = next;
    while i < entries.len()
        invariant
            forall|io: Io| #[trigger]
                walk(path@, work@, children0, all, next as int, has_tmpfs, io) == walk(
                    path@,
                    work@,
                    nodes_view(children@),
                    all,
                    i as int,
                    has_tmpfs,
                    io,
                ),
            leftover(children0, all, next as int) == leftover(
                nodes_view(children@),
                all,
                i as int,
            ),
        decreases entries.len() - i,
    {
        let ghost before = nodes_view(children@);
        assert(all[i as int] == entries@[i as int]@);
        let turn = visit(path.as_slice(), work.as_slice(), &mut children, &entries[i], has_tmpfs);
        let ghost here = turn;
        assert forall|io: Io| #[trigger]
            walk(path@, work@, before, all, i as int, has_tmpfs, io) == walk_on(
                path@,
                work@,
                nodes_view(children@),
                all,
                i + 1,
                has_tmpfs,
                here.means(io),
            ) by {
            lemma_walk_step(path@, work@, before, all, i as int, has_tmpfs, io);
        }
        match turn {
            Turn::Ask(request, visiting) => {
                return pause_walk(
                    path,
                    work,
                    children,
                    entries,
                    i + 1,
                    has_tmpfs,
                    request,
                    visiting,
                );
            },
            Turn::Done(_) => {},
            Turn::Fail(e) => match handle_mount_result(Err(e), has_tmpfs) {
                Err(e) => {
                    let result: Turn<Walking> = Turn::Fail(e);
                    assert forall|io: Io| #[trigger]
                        result.means(io) == leaving(
                            walk(path@, work@, children0, all, next as int, has_tmpfs, io),
                            leftover(children0, all, next as int),
                        ) by {
                        lemma_walk_on(
                            path@,
                            work@,
                            nodes_view(children@),
                            all,
                            i + 1,
                            has_tmpfs,
                            here.means(io),
                        );
                    }
                    return result;
                },
                Ok(_) => {},
            },
        }
        assert forall|io: Io| #[trigger]
            walk(path@, work@, children0, all, next as int, has_tmpfs, io) == walk(
                path@,
                work@,
                nodes_view(children@),
                all,
                i + 1,
                has_tmpfs,
                io,
            ) by {
            lemma_walk_on(
                path@,
                work@,
                nodes_view(children@),
                all,
                i + 1,
                has_tmpfs,
                here.means(io),
            );
        }
        i += 1;
    }
    let result: Turn<Walking> = Turn::Done(Children(children));
    assert forall|io: Io| #[trigger]
        result.means(io) == leaving(
            walk(path@, work@, children0, all, next as int, has_tmpfs, io),
            leftover(children0, all, next as int),
        ) by {
        reveal(walk);
    }
    result
}

/// Starts to deal with the device's entries of a directory. The children that have no counterpart
/// there come back.
pub fn process_existing_entries(
    path: Vec<u8>,
    work: Vec<u8>,
    children: Vec<Node>,
    has_tmpfs: bool,
) -> (turn: Turn<Walking>)
    ensures
        forall|io: Io| #[trigger]
            turn.means(io) == existing_entries(
                path@,
                work@,
                nodes_view(children@),
                has_tmpfs,
                io,
            ),
{
    reveal(walking_after);
    let request = Request::ListDir(copied(path.as_slice()));
    Turn::Ask(
        request,
        Walking {
            path,
            work,
            children,
            entries: Vec::new(),
            next: 0,
            has_tmpfs,
            stage: WalkStage::Listing,
        },
    )
}

/// Several children of which one is being mounted.
fn pause_fill(
    path: Vec<u8>,
    work: Vec<u8>,
    children: Vec<Node>,
    has_tmpfs: bool,
    task: Task<Vec<u8>>,
    request: Request<Vec<u8>>,
    mounting: Mounting,
) -> (turn: Turn<Filling>)
    ensures
        forall|io: Io| #[trigger]
            turn.means(io) == fill_on(
                path@,
                work@,
                nodes_view(children@),
                has_tmpfs,
                noted(task@, Turn::Ask(request, mounting).means(io)),
            ),
{
    let ghost left = nodes_view(children@);
    let ghost here = Turn::Ask(request, mounting);
    let filling = Filling { path, work, children, has_tmpfs, task, child: Box::new(mounting) };
    assert forall|reply: ReplyView, io: Io| #[trigger]
        filling.after(reply, io) == fill_on(
            path@,
            work@,
            left,
            has_tmpfs,
            noted(task@, mounting.after(reply, io)),
        ) by {
        reveal(filling_after);
        reveal(mounting_after);
    }
    let turn = Turn::Ask(request, filling);
    assert forall|io: Io| #[trigger]
        turn.means(io) == fill_on(path@, work@, left, has_tmpfs, noted(task@, here.means(io))) by {
        lemma_fill_on(path@, work@, left, has_tmpfs, noted(task@, here.means(io)));
    }
    turn
}

/// Starts to mount the children one after the other, but for those that are to be left out.
#[verifier::loop_isolation(false)]
pub fn process_remaining_children(
    path: Vec<u8>,
    work: Vec<u8>,
    children: Vec<Node>,
    has_tmpfs: bool,
) -> (turn: Turn<Filling>)
    ensures
        forall|io: Io| #[trigger]
            turn.means(io) == fill(path@, work@, nodes_view(children@), has_tmpfs, io),
{
    let ghost children0 = nodes_view(children@);
    let mut children = children;
    while children.len() > 0
        invariant
            forall|io: Io| #[trigger]
                fill(path@, work@, children0, has_tmpfs, io) == fill(
                    path@,
                    work@,
                    nodes_view(children@),
                    has_tmpfs,
                    io,
                ),
        decreases children.len(),
    {
        let ghost before = nodes_view(children@);
        let child = children.remove(0);
        assert(before[0] == child@);
        assert(before.drop_first() =~= nodes_view(children@));
        let task = Task::MagicMount {
            path: copied(path.as_slice()),
            name: copied(child.name.as_slice()),
        };
        let turn = if child.skip {
            Turn::Done(())
        } else {
            do_magic_mount(path.as_slice(), work.as_slice(), child, has_tmpfs)
        };
        let ghost here = turn;
        assert forall|io: Io| #[trigger]
            fill(path@, work@, before, has_tmpfs, io) == fill_on(
                path@,
                work@,
                nodes_view(children@),
                has_tmpfs,
                noted(task@, here.means(io)),
            ) by {
            lemma_fill_step(path@, work@, before, has_tmpfs, io);
        }
        match turn {
            Turn::Ask(request, mounting) => {
                return pause_fill(path, work, children, has_tmpfs, task, request, mounting);
            },
            Turn::Done(_) => {},
            Turn::Fail(e) => match handle_mount_result(
                Err(Error::Within(task, Box::new(e))),
                has_tmpfs,
            ) {
                Err(e) => {
                    let result: Turn<Filling> = Turn::Fail(e);
                    assert forall|io: Io| #[trigger]
                        result.means(io) == fill(path@, work@, children0, has_tmpfs, io) by {
                        lemma_fill_on(
                            path@,
                            work@,
                            nodes_view(children@),
                            has_tmpfs,
                            noted(task@, here.means(io)),
                        );
                    }
                    return result;
                },
                Ok(_) => {},
            },
        }
        assert forall|io: Io| #[trigger]
            fill(path@, work@, children0, has_tmpfs, io) == fill(
                path@,
                work@,
                nodes_view(children@),
                has_tmpfs,
                io,
            ) by {
            lemma_fill_on(
                path@,
                work@,
                nodes_view(children@),
                has_tmpfs,
                noted(task@, here.means(io)),
            );
        }
    }
    let result: Turn<Filling> = Turn::Done(());
    assert forall|io: Io| #[trigger]
        result.means(io) == fill(path@, work@, children0, has_tmpfs, io) by {
        reveal(fill);
    }
    result
}

/// A walk through the device's entries from where it deals with one of them.
fn walk_after(
    path: Vec<u8>,
    work: Vec<u8>,
    children: Vec<Node>,
    entries: Vec<Entry<Vec<u8>>>,
    next: usize,
    has_tmpfs: bool,
    turn: Turn<Visiting>,
) -> (result: Turn<Walking>)
    ensures
        forall|io: Io| #[trigger]
            result.means(io) == leaving(
                walk_on(
                    path@,
                    work@,
                    nodes_view(children@),
                    entries_view(entries@),
                    next as int,
                    has_tmpfs,
                    turn.means(io),
                ),
                leftover(nodes_view(children@), entries_view(entries@), next as int),
            ),
{
    let ghost here = turn;
    let ghost left = nodes_view(children@);
    let ghost all = entries_view(entries@);
    assert forall|run: Run<()>| true implies {
        &&& handled(run, has_tmpfs).out is Done ==> #[trigger] walk_on(
            path@,
            work@,
            left,
            all,
            next as int,
            has_tmpfs,
            run,
        ) == walk(path@, work@, left, all, next as int, has_tmpfs, run.io)
        &&& !(handled(run, has_tmpfs).out is Done) ==> walk_on(
            path@,
            work@,
            left,
            all,
            next as int,
            has_tmpfs,
            run,
        ) == run
    } by {
        lemma_walk_on(path@, work@, left, all, next as int, has_tmpfs, run);
    }
    match turn {
        Turn::Ask(request, visiting) => pause_walk(
            path,
            work,
            children,
            entries,
            next,
            has_tmpfs,
            request,
            visiting,
        ),
        Turn::Done(_) => walk_from(path, work, children, entries, next, has_tmpfs),
        Turn::Fail(e) => match handle_mount_result(Err(e), has_tmpfs) {
            Err(e) => Turn::Fail(e),
            Ok(_) => walk_from(path, work, children, entries, next, has_tmpfs),
        },
    }
}

/// Several children from where one of them is being mounted.
fn fill_after(
    path: Vec<u8>,
    work: Vec<u8>,
    children: Vec<Node>,
    has_tmpfs: bool,
    task: Task<Vec<u8>>,
    turn: Turn<Mounting>,
) -> (result: Turn<Filling>)
    ensures
        forall|io: Io| #[trigger]
            result.means(io) == fill_on(
                path@,
                work@,
                nodes_view(children@),
                has_tmpfs,
                noted(task@, turn.means(io)),
            ),
{
    let ghost left = nodes_view(children@);
    assert forall|run: Run<()>| true implies {
        &&& handled(run, has_tmpfs).out is Done ==> #[trigger] fill_on(
            path@,
            work@,
            left,
            has_tmpfs,
            run,
        ) == fill(path@, work@, left, has_tmpfs, run.io)
        &&& !(handled(run, has_tmpfs).out is Done) ==> fill_on(path@, work@, left, has_tmpfs, run)
            == run
    } by {
        lemma_fill_on(path@, work@, left, has_tmpfs, run);
    }
    match turn {
        Turn::Ask(request, mounting) => pause_fill(
            path,
            work,
            children,
            has_tmpfs,
            task,
            request,
            mounting,
        ),
        Turn::Done(_) => process_remaining_children(path, work, children, has_tmpfs),
        Turn::Fail(e) => match handle_mount_result(
            Err(Error::Within(task, Box::new(e))),
            has_tmpfs,
        ) {
            Err(e) => Turn::Fail(e),
            Ok(_) => process_remaining_children(path, work, children, has_tmpfs),
        },
    }
}

/// Mounting a directory from the walk through the device's entries on.
fn from_walk(
    path: Vec<u8>,
    work: Vec<u8>,
    replaced_root: bool,
    create: bool,
    has_tmpfs: bool,
    turn: Turn<Walking>,
) -> (result: Turn<Mounting>)
    ensures
        forall|io: Io| #[trigger]
            result.means(io) == dir_walked(
                path@,
                work@,
                replaced_root,
                create,
                has_tmpfs,
                turn.means(io),
            ),
{
    match turn {
        Turn::Ask(request, walking) => {
            let mounting = Mounting {
                path,
                work,
                stage: MountStage::Walking(Box::new(walking), replaced_root, create, has_tmpfs),
            };
            assert forall|reply: ReplyView, io: Io| #[trigger]
                mounting.after(reply, io) == dir_walked(
                    path@,
                    work@,
                    replaced_root,
                    create,
                    has_tmpfs,
                    walking.after(reply, io),
                ) by {
                reveal(mounting_after);
                reveal(walking_after);
            }
            Turn::Ask(request, mounting)
        },
        Turn::Done(left) => from_left(path, work, replaced_root, create, has_tmpfs, left.0),
        Turn::Fail(e) => Turn::Fail(e),
    }
}

/// Mounting a directory from the children on that the walk left.
fn from_left(
    path: Vec<u8>,
    work: Vec<u8>,
    replaced_root: bool,
    create: bool,
    has_tmpfs: bool,
    left: Vec<Node>,
) -> (result: Turn<Mounting>)
    ensures
        forall|io: Io| #[trigger]
            result.means(io) == dir_walked(
                path@,
                work@,
                replaced_root,
                create,
                has_tmpfs,
                done(io, nodes_view(left@)),
            ),
{
    assert forall|io: Io| true implies #[trigger] dir_walked(
        path@,
        work@,
        replaced_root,
        create,
        has_tmpfs,
        done(io, nodes_view(left@)),
    ) == if replaced_root {
        fail(io, Error::ReplacedRoot(path@))
    } else {
        dir_filled(path@, work@, create, fill(path@, work@, nodes_view(left@), has_tmpfs, io))
    } by {
        reveal(fill);
    }
    if replaced_root {
        Turn::Fail(Error::ReplacedRoot(path))
    } else {
        let turn = process_remaining_children(
            copied(path.as_slice()),
            copied(work.as_slice()),
            left,
            has_tmpfs,
        );
        from_fill(path, work, create, turn)
    }
}

/// Mounting a directory from the children on that are left.
fn from_fill(path: Vec<u8>, work: Vec<u8>, create: bool, turn: Turn<Filling>) -> (result: Turn<
    Mounting,
>)
    ensures
        forall|io: Io| #[trigger]
            result.means(io) == dir_filled(path@, work@, create, turn.means(io)),
{
    match turn {
        Turn::Ask(request, filling) => {
            let mounting = Mounting {
                path,
                work,
                stage: MountStage::Filling(Box::new(filling), create),
            };
            assert forall|reply: ReplyView, io: Io| #[trigger]
                mounting.after(reply, io) == dir_filled(
                    path@,
                    work@,
                    create,
                    filling.after(reply, io),
                ) by {
                reveal(mounting_after);
                reveal(filling_after);
            }
            Turn::Ask(request, mounting)
        },
        Turn::Done(_) => {
            let steps = move_tmpfs_to_target(
                copied(path.as_slice()),
                copied(work.as_slice()),
                create,
            );
            at_last(path, work, perform_steps(steps))
        },
        Turn::Fail(e) => Turn::Fail(e),
    }
}

/// Mounting a directory from where it is known whether the device has it.
fn from_look(
    path: Vec<u8>,
    work: Vec<u8>,
    node: Node,
    create: bool,
    has_tmpfs: bool,
    reply: Reply,
) -> (result: Turn<Mounting>)
    ensures
        forall|io: Io| #[trigger]
            result.means(io) == dir_looked_at(
                path@,
                work@,
                node@,
                create,
                has_tmpfs,
                done(io, reply@),
            ),
{
    proof {
        lemma_children_view(node);
    }
    let replaced_root = node.replace && node.origin.is_none();
    if reply.into_flag() && !node.replace {
        let turn = process_existing_entries(
            copied(path.as_slice()),
            copied(work.as_slice()),
            node.children,
            has_tmpfs,
        );
        assert forall|io: Io| true implies #[trigger] dir_looked_at(
            path@,
            work@,
            node@,
            create,
            has_tmpfs,
            done(io, reply@),
        ) == dir_walked(path@, work@, replaced_root, create, has_tmpfs, turn.means(io)) by {
            reveal(walk);
        }
        from_walk(path, work, replaced_root, create, has_tmpfs, turn)
    } else {
        from_left(path, work, replaced_root, create, has_tmpfs, node.children)
    }
}

impl Visiting {
    /// Goes on with the host's reply.
    pub fn resume(self, reply: Reply) -> (turn: Turn<Visiting>)
        ensures
            forall|io: Io| #[trigger] turn.means(io) == self.after(reply@, io),
        decreases self,
    {
        match self.stage {
            VisitStage::Child(child) => {
                assert forall|io: Io| true implies #[trigger] self.after(reply@, io) == noted(
                    self.task@,
                    child.after(reply@, io),
                ) by {
                    reveal(visiting_after);
                    reveal(mounting_after);
                }
                visit_child(self.task, (*child).resume(reply))
            },
            VisitStage::Mirror(script) => {
                assert forall|io: Io| true implies #[trigger] self.after(reply@, io) == noted(
                    self.task@,
                    script.after(reply@, io),
                ) by {
                    reveal(visiting_after);
                }
                visit_mirror(self.task, script.resume(reply))
            },
        }
    }
}

impl Walking {
    /// Goes on with the host's reply.
    pub fn resume(self, reply: Reply) -> (turn: Turn<Walking>)
        ensures
            forall|io: Io| #[trigger] turn.means(io) == self.after(reply@, io),
        decreases self,
    {
        match self.stage {
            WalkStage::Listing => {
                assert forall|io: Io| true implies #[trigger] self.after(reply@, io)
                    == walk_listed(
                    self.path@,
                    self.work@,
                    nodes_view(self.children@),
                    self.has_tmpfs,
                    reply@,
                    io,
                ) by {
                    reveal(walking_after);
                }
                match reply.into_listing() {
                    Ok(entries) => walk_from(
                        self.path,
                        self.work,
                        self.children,
                        entries,
                        0,
                        self.has_tmpfs,
                    ),
                    Err(e) => Turn::Fail(e),
                }
            },
            WalkStage::Visiting(visiting) => {
                assert forall|io: Io| true implies #[trigger] self.after(reply@, io) == leaving(
                    walk_on(
                        self.path@,
                        self.work@,
                        nodes_view(self.children@),
                        entries_view(self.entries@),
                        self.next as int,
                        self.has_tmpfs,
                        visiting.after(reply@, io),
                    ),
                    leftover(
                        nodes_view(self.children@),
                        entries_view(self.entries@),
                        self.next as int,
                    ),
                ) by {
                    reveal(walking_after);
                    reveal(visiting_after);
                }
                walk_after(
                    self.path,
                    self.work,
                    self.children,
                    self.entries,
                    self.next,
                    self.has_tmpfs,
                    visiting.resume(reply),
                )
            },
        }
    }
}

impl Filling {
    /// Goes on with the host's reply.
    pub fn resume(self, reply: Reply) -> (turn: Turn<Filling>)
        ensures
            forall|io: Io| #[trigger] turn.means(io) == self.after(reply@, io),
        decreases self,
    {
        assert forall|io: Io| true implies #[trigger] self.after(reply@, io) == fill_on(
            self.path@,
            self.work@,
            nodes_view(self.children@),
            self.has_tmpfs,
            noted(self.task@, self.child.after(reply@, io)),
        ) by {
            reveal(filling_after);
            reveal(mounting_after);
        }
        let turn = (*self.child).resume(reply);
        fill_after(self.path, self.work, self.children, self.has_tmpfs, self.task, turn)
    }
}

impl Mounting {
    /// Goes on with the host's reply.
    pub fn resume(self, reply: Reply) -> (turn: Turn<Mounting>)
        ensures
            forall|io: Io| #[trigger] turn.means(io) == self.after(reply@, io),
        decreases self,
    {
        match self.stage {
            MountStage::Last(script) => {
                assert forall|io: Io| true implies #[trigger] self.after(reply@, io)
                    == script.after(reply@, io) by {
                    reveal(mounting_after);
                }
                at_last(self.path, self.work, script.resume(reply))
            },
            MountStage::Deciding(weighing, has_tmpfs) => {
                assert forall|io: Io| true implies #[trigger] self.after(reply@, io)
                    == dir_decided(
                    self.path@,
                    self.work@,
                    has_tmpfs,
                    weighing.after(reply@, io),
                ) by {
                    reveal(mounting_after);
                }
                from_decision(self.path, self.work, has_tmpfs, weighing.resume(reply))
            },
            MountStage::Preparing(script, node, create, has_tmpfs) => {
                assert forall|io: Io| true implies #[trigger] self.after(reply@, io)
                    == dir_prepared(
                    self.path@,
                    self.work@,
                    node@,
                    create,
                    has_tmpfs,
                    script.after(reply@, io),
                ) by {
                    reveal(mounting_after);
                }
                from_preparation(
                    self.path,
                    self.work,
                    node,
                    create,
                    has_tmpfs,
                    script.resume(reply),
                )
            },
            MountStage::Looking(node, create, has_tmpfs) => {
                assert forall|io: Io| true implies #[trigger] self.after(reply@, io)
                    == dir_looked_at(
                    self.path@,
                    self.work@,
                    node@,
                    create,
                    has_tmpfs,
                    done(io, reply@),
                ) by {
                    reveal(mounting_after);
                }
                from_look(self.path, self.work, node, create, has_tmpfs, reply)
            },
            MountStage::Walking(walking, replaced_root, create, has_tmpfs) => {
                assert forall|io: Io| true implies #[trigger] self.after(reply@, io)
                    == dir_walked(
                    self.path@,
                    self.work@,
                    replaced_root,
                    create,
                    has_tmpfs,
                    walking.after(reply@, io),
                ) by {
                    reveal(mounting_after);
                    reveal(walking_after);
                }
                let turn = (*walking).resume(reply);
                from_walk(self.path, self.work, replaced_root, create, has_tmpfs, turn)
            },
            MountStage::Filling(filling, create) => {
                assert forall|io: Io| true implies #[trigger] self.after(reply@, io)
                    == dir_filled(
                    self.path@,
                    self.work@,
                    create,
                    filling.after(reply@, io),
                ) by {
                    reveal(mounting_after);
                    reveal(filling_after);
                }
                let turn = (*filling).resume(reply);
                from_fill(self.path, self.work, create, turn)
            },
        }
    }
}

} // verus!
