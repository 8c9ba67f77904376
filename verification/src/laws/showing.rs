//! Where all calls succeed, everything that the modules provide is shown in its place, and what the
//! device has beside it stays.

use vstd::prelude::*;

use crate::bytes::{joined, lossy_text};
use crate::laws::attempts::{has_entry, lemma_left_over};
use crate::laws::conversation::{
    lemma_end, lemma_proceeds, lemma_then, lemma_weaken, no_limits, proceeds,
};
use crate::laws::copying::{
    lemma_call_made, lemma_likeness_made, lemma_link_made, lemma_step_taken, likeness_requests,
    link_requests, lists_well, obliging,
};
use crate::laws::device::{lemma_kept_readable, lemma_readable_kept, listed, says_yes};
use crate::laws::finding::{lemma_truthful_ask, lemma_truthful_parts, truthful, World};
use crate::laws::fitting::{directories_are_rebuilt_where_something_does_not_fit, left_out, rebuilt};
use crate::laws::mirroring::{
    agree, asked_at, fine_entry, fully_mirrored, lemma_asked_wider, lemma_fully_wider,
    mirroring_is_complete,
};
use crate::laws::mounting::lemma_finished_last;
use crate::laws::orderly::{
    decided_dirs_are_orderly, fills_are_orderly, mounting_is_orderly, prepared_dirs_are_orderly,
    steps_are_orderly, visits_are_orderly, walks_are_orderly,
};
use crate::laws::reading::{decisions_only_read, lemma_asked, queries};
use crate::laws::tree::sound;
use crate::mount::{
    dir_decided, dir_filled, dir_listed, dir_looked_at, dir_prepared, dir_walked, file_steps, fill,
    finish_steps, handled, leaving, leftover, lemma_decision_size, lemma_fill_on, lemma_fill_step,
    lemma_leftover_size, lemma_sizes_remove, lemma_walk_on, lemma_walk_step, lemma_without_size,
    mounted, prepare_steps, size, sizes, symlink_steps, tmpfs_decision, visited, walk, without,
};
use crate::node::{distinct, lemma_position, position, NodeFileType, NodeView};
use crate::protocol::{
    ask, done, listing_of, noted, readable, still_to_come, Entry, Io, Outcome, ReplyView, Request,
    Run, Task, Text,
};
use crate::script::{
    clone_symlink_step, copy_attributes_step, mirror_steps, must, perform, task, Purpose, Step,
};

verus! {

/// The requests that show a file: it is bound over the device's, or over a new one in a directory
/// that is built anew.
pub open spec fn file_requests(
    source: Text,
    path: Text,
    work: Text,
    has_tmpfs: bool,
) -> Seq<Request<Text>> {
    if has_tmpfs {
        seq![Request::CreateFile(work), Request::BindMount { source, target: work }]
    } else {
        seq![Request::BindMount { source, target: path }]
    }
}

/// The requests that build the directory `work` in the likeness of the device's `path`, or of the
/// module's where the device has none. The outermost such directory is made a mount of its own.
pub open spec fn base_requests(
    world: World,
    path: Text,
    work: Text,
    origin: Text,
    outermost: bool,
) -> Seq<Request<Text>> {
    let source = if says_yes(world, Request::Exists(path)) {
        path
    } else {
        origin
    };
    let made = seq![Request::CreateDirAll(work), Request::Exists(path)] + likeness_requests(
        world,
        Request::Stat(source),
        source,
        work,
    );
    if outermost {
        made.push(Request::BindMount { source: work, target: work })
    } else {
        made
    }
}

/// The requests that put a directory that was built anew over the device's.
pub open spec fn cover_requests(path: Text, work: Text) -> Seq<Request<Text>> {
    seq![Request::MoveMount { source: work, target: path }, Request::MakePrivate(path)]
}

/// What comes before `a` and behind `m` when a directory is mounted: it is built anew first if it
/// has to be, and put over the device's at the end if it is the outermost one of that kind.
pub open spec fn framed(
    world: World,
    log: Seq<Request<Text>>,
    from: int,
    to: int,
    a: int,
    m: int,
    path: Text,
    work: Text,
    origin: Option<Text>,
    create: bool,
    has_tmpfs: bool,
) -> bool {
    &&& 0 <= from <= a <= m <= to <= log.len()
    &&& has_tmpfs || create ==> origin is Some && exists|b: int| #[trigger]
        asked_at(log, from, a, b, base_requests(world, path, work, origin->0, create))
    &&& create ==> exists|b: int| #[trigger] asked_at(log, m, to, b, cover_requests(path, work))
}

/// One of several nodes has the name that an entry reads as.
pub open spec fn has_child(children: Seq<NodeView>, entry: Entry<Text>) -> bool {
    exists|k: int|
        0 <= k < children.len() && (#[trigger] children[k]).name == lossy_text(entry.name)
}

/// All that the device has in the directory `path` and no child has the name of was mirrored.
pub open spec fn device_kept(
    world: World,
    log: Seq<Request<Text>>,
    from: int,
    to: int,
    path: Text,
    work: Text,
    children: Seq<NodeView>,
) -> bool {
    forall|i: int|
        (#[trigger] listed(world, path, i)) is Some && !has_child(
            children,
            listed(world, path, i)->0,
        ) ==> fully_mirrored(world, log, from, to, path, work, listed(world, path, i)->0)
}

/// A node was mounted in the directory `parent`, or in its counterpart `parent_work` where that is
/// built anew. A file was bound over the device's, or over a new one. A link was made again. For a
/// directory the same holds of every child that has a place there; and if it is built anew and does
/// not replace the device's, of all else that the device has in it, that was mirrored.
pub open spec fn shown(
    world: World,
    log: Seq<Request<Text>>,
    from: int,
    to: int,
    parent: Text,
    parent_work: Text,
    node: NodeView,
    has_tmpfs: bool,
) -> bool
    decreases node,
{
    let path = joined(parent, node.name);
    let work = joined(parent_work, node.name);
    match node.file_type {
        NodeFileType::RegularFile => node.origin is Some && exists|a: int| #[trigger]
            asked_at(log, from, to, a, file_requests(node.origin->0, path, work, has_tmpfs)),
        NodeFileType::Symlink => node.origin is Some && exists|a: int| #[trigger]
            asked_at(log, from, to, a, link_requests(world, node.origin->0, work)),
        NodeFileType::Whiteout => true,
        NodeFileType::Directory => {
            let create = rebuilt(world, path, node, has_tmpfs);
            let built = has_tmpfs || create;
            exists|a: int, m: int| #[trigger]
                framed(
                    world,
                    log,
                    from,
                    to,
                    a,
                    m,
                    path,
                    work,
                    node.origin,
                    create,
                    has_tmpfs,
                ) && (forall|k: int|
                    0 <= k < node.children.len() && !left_out(world, path, node, has_tmpfs, k)
                        ==> shown(
                        world,
                        log,
                        a,
                        m,
                        path,
                        work,
                        #[trigger] node.children[k],
                        built,
                    )) && (built && !node.replace && says_yes(world, Request::Exists(path))
                    ==> device_kept(world, log, a, m, path, work, node.children))
        },
    }
}

/// What was shown between two points was so between points further apart.
pub proof fn lemma_shown_wider(
    world: World,
    one: Seq<Request<Text>>,
    other: Seq<Request<Text>>,
    from: int,
    to: int,
    earlier: int,
    later: int,
    parent: Text,
    parent_work: Text,
    node: NodeView,
    has_tmpfs: bool,
)
    requires
        shown(world, one, from, to, parent, parent_work, node, has_tmpfs),
        agree(one, other, from, to),
        0 <= earlier <= from,
        to <= later <= other.len(),
    ensures
        shown(world, other, earlier, later, parent, parent_work, node, has_tmpfs),
    decreases node,
{
    let path = joined(parent, node.name);
    let work = joined(parent_work, node.name);
    match node.file_type {
        NodeFileType::RegularFile => {
            let requests = file_requests(node.origin->0, path, work, has_tmpfs);
            let a = choose|a: int| #[trigger] asked_at(one, from, to, a, requests);
            lemma_asked_wider(one, other, from, to, earlier, later, a, requests);
        },
        NodeFileType::Symlink => {
            let requests = link_requests(world, node.origin->0, work);
            let a = choose|a: int| #[trigger] asked_at(one, from, to, a, requests);
            lemma_asked_wider(one, other, from, to, earlier, later, a, requests);
        },
        NodeFileType::Whiteout => {},
        NodeFileType::Directory => {
            let create = rebuilt(world, path, node, has_tmpfs);
            let built = has_tmpfs || create;
            let (a, m) = choose|a: int, m: int| #[trigger]
                framed(
                    world,
                    one,
                    from,
                    to,
                    a,
                    m,
                    path,
                    work,
                    node.origin,
                    create,
                    has_tmpfs,
                ) && (forall|k: int|
                    0 <= k < node.children.len() && !left_out(world, path, node, has_tmpfs, k)
                        ==> shown(
                        world,
                        one,
                        a,
                        m,
                        path,
                        work,
                        #[trigger] node.children[k],
                        built,
                    )) && (built && !node.replace && says_yes(world, Request::Exists(path))
                    ==> device_kept(world, one, a, m, path, work, node.children));
            if built {
                let requests = base_requests(world, path, work, node.origin->0, create);
                let b = choose|b: int| #[trigger] asked_at(one, from, a, b, requests);
                lemma_asked_wider(one, other, from, a, earlier, a, b, requests);
            }
            if create {
                let requests = cover_requests(path, work);
                let b = choose|b: int| #[trigger] asked_at(one, m, to, b, requests);
                lemma_asked_wider(one, other, m, to, m, later, b, requests);
            }
            assert(framed(
                world,
                other,
                earlier,
                later,
                a,
                m,
                path,
                work,
                node.origin,
                create,
                has_tmpfs,
            ));
            assert forall|k: int|
                0 <= k < node.children.len() && !left_out(
                    world,
                    path,
                    node,
                    has_tmpfs,
                    k,
                ) implies shown(
                world,
                other,
                a,
                m,
                path,
                work,
                #[trigger] node.children[k],
                built,
            ) by {
                let child = node.children[k];
                lemma_shown_wider(world, one, other, a, m, a, m, path, work, child, built);
            }
            if built && !node.replace && says_yes(world, Request::Exists(path)) {
                lemma_kept_wider(world, one, other, a, m, a, m, path, work, node.children);
            }
        },
    }
}

/// What was kept between two points was so between points further apart.
proof fn lemma_kept_wider(
    world: World,
    one: Seq<Request<Text>>,
    other: Seq<Request<Text>>,
    from: int,
    to: int,
    earlier: int,
    later: int,
    path: Text,
    work: Text,
    children: Seq<NodeView>,
)
    requires
        device_kept(world, one, from, to, path, work, children),
        agree(one, other, from, to),
        0 <= earlier <= from,
        to <= later <= other.len(),
    ensures
        device_kept(world, other, earlier, later, path, work, children),
{
    assert forall|i: int|
        (#[trigger] listed(world, path, i)) is Some && !has_child(
            children,
            listed(world, path, i)->0,
        ) implies fully_mirrored(
        world,
        other,
        earlier,
        later,
        path,
        work,
        listed(world, path, i)->0,
    ) by {
        let entry = listed(world, path, i)->0;
        lemma_fully_wider(world, one, other, from, to, earlier, later, path, work, entry);
    }
}

/// A computation in good order leaves what was asked before as it was.
pub proof fn lemma_prefix_kept<T>(io: Io, run: Run<T>)
    requires
        proceeds(io, run, no_limits()),
    ensures
        io.asked.len() <= run.io.asked.len(),
        agree(io.asked, run.io.asked, 0, io.asked.len() as int),
{
    lemma_proceeds(io, run, no_limits());
    assert forall|i: int| 0 <= i < io.asked.len() implies #[trigger] io.asked[i]
        == run.io.asked[i] by {
        assert(run.io.asked.take(io.asked.len() as int)[i] == run.io.asked[i]);
    }
}

/// Requests that were made at the end of a log stand there.
pub proof fn lemma_stand_at(
    before: Seq<Request<Text>>,
    requests: Seq<Request<Text>>,
    log: Seq<Request<Text>>,
    from: int,
    to: int,
)
    requires
        0 <= from <= before.len(),
        before.len() + requests.len() <= to <= log.len(),
        agree(before + requests, log, 0, (before + requests).len() as int),
    ensures
        asked_at(log, from, to, before.len() as int, requests),
{
    let a = before.len() as int;
    assert forall|i: int| 0 <= i < requests.len() implies #[trigger] requests[i] == log[a + i] by {
        assert((before + requests)[a + i] == requests[i]);
    }
    assert(log.subrange(a, a + requests.len()) =~= requests);
}

/// How a directory is built anew, where all calls succeed.
pub proof fn lemma_base_made(
    world: World,
    path: Text,
    work: Text,
    origin: Text,
    create: bool,
    io: Io,
)
    requires
        obliging(world),
        truthful(
            world,
            io,
            perform(prepare_steps(path, work, Some(origin), create, true), io),
        ),
    ensures
        ({
            let whole = perform(prepare_steps(path, work, Some(origin), create, true), io);
            ||| whole.out is Waiting
            ||| {
                &&& whole.out is Done
                &&& whole.io.asked == io.asked + base_requests(world, path, work, origin, create)
            }
        }),
{
    let steps = prepare_steps(path, work, Some(origin), create, true);
    let whole = perform(steps, io);
    let none = Seq::<Step<Text>>::empty();
    let bind = Request::BindMount { source: work, target: work };
    let tail = if create {
        seq![task(Task::BindSelf, bind)]
    } else {
        none
    };
    let make = Request::CreateDirAll(work);
    let look = Request::Exists(path);
    let purpose = Purpose::Skeleton { path, work, origin: Some(origin) };
    let behind = seq![Step::Ask(look, purpose)] + tail;
    assert(steps =~= seq![must(make)] + behind);
    lemma_call_made(world, make, Purpose::Success, behind, io);
    if io.rest.len() > 0 {
        let made = ask(io, make).io;
        lemma_step_taken(world, look, purpose, tail, made);
        if made.rest.len() > 0 {
            let next = ask(made, look).io;
            let source = if says_yes(world, look) {
                path
            } else {
                origin
            };
            assert(whole == perform(seq![copy_attributes_step(true, source, work)] + tail, next));
            let after = lemma_likeness_made(world, true, source, work, tail, next);
            if !(whole.out is Waiting) {
                if create {
                    assert(tail =~= tail + none);
                    lemma_call_made(world, bind, Purpose::Task(Task::BindSelf), none, after);
                }
                assert(whole.io.asked =~= io.asked + base_requests(
                    world,
                    path,
                    work,
                    origin,
                    create,
                ));
            }
        }
    }
}

/// How a directory is put over the device's, where all calls succeed.
pub proof fn lemma_cover_made(world: World, path: Text, work: Text, io: Io)
    requires
        obliging(world),
        truthful(world, io, perform(finish_steps(path, work, true), io)),
    ensures
        ({
            let whole = perform(finish_steps(path, work, true), io);
            ||| whole.out is Waiting
            ||| whole.out is Done && whole.io.asked == io.asked + cover_requests(path, work)
        }),
{
    let steps = finish_steps(path, work, true);
    let whole = perform(steps, io);
    let none = Seq::<Step<Text>>::empty();
    let moving = Request::MoveMount { source: work, target: path };
    let private = Request::MakePrivate(path);
    let behind = seq![task(Task::MakeSelfPrivate, private)];
    assert(steps =~= seq![task(Task::MoveSelf, moving)] + behind);
    lemma_call_made(world, moving, Purpose::Task(Task::MoveSelf), behind, io);
    if io.rest.len() > 0 {
        let next = ask(io, moving).io;
        assert(behind =~= behind + none);
        lemma_call_made(world, private, Purpose::Task(Task::MakeSelfPrivate), none, next);
        if next.rest.len() > 0 {
            assert(whole.io.asked =~= io.asked + cover_requests(path, work));
        }
    }
}

/// A node can be mounted: it and all below it come from modules as far as they have to.
pub open spec fn able(node: NodeView, has_tmpfs: bool) -> bool {
    &&& sound(node)
    &&& has_tmpfs ==> node.origin is Some
}

/// Several nodes can be mounted.
pub open spec fn all_able(nodes: Seq<NodeView>, has_tmpfs: bool) -> bool {
    forall|i: int| 0 <= i < nodes.len() ==> able(#[trigger] nodes[i], has_tmpfs)
}

/// Several nodes were mounted, but for those that are to be left out.
spec fn all_shown(
    world: World,
    log: Seq<Request<Text>>,
    from: int,
    to: int,
    path: Text,
    work: Text,
    nodes: Seq<NodeView>,
    has_tmpfs: bool,
) -> bool {
    forall|k: int|
        0 <= k < nodes.len() && !(#[trigger] nodes[k]).skip ==> shown(
            world,
            log,
            from,
            to,
            path,
            work,
            nodes[k],
            has_tmpfs,
        )
}

/// Where all calls succeed, mounting a node does not fail, and when it is done the node is shown in
/// its place.
pub proof fn mounted_nodes_are_shown(
    world: World,
    parent: Text,
    parent_work: Text,
    node: NodeView,
    has_tmpfs: bool,
    io: Io,
)
    requires
        obliging(world),
        able(node, has_tmpfs),
        truthful(world, io, mounted(parent, parent_work, node, has_tmpfs, io)),
    ensures
        ({
            let run = mounted(parent, parent_work, node, has_tmpfs, io);
            &&& !(run.out is Fail)
            &&& run.out is Done ==> shown(
                world,
                run.io.asked,
                io.asked.len() as int,
                run.io.asked.len() as int,
                parent,
                parent_work,
                node,
                has_tmpfs,
            )
        }),
    decreases size(node), 9nat, 0nat,
{
    reveal(mounted);
    let path = joined(parent, node.name);
    let work = joined(parent_work, node.name);
    let whole = mounted(parent, parent_work, node, has_tmpfs, io);
    let from = io.asked.len() as int;
    let to = whole.io.asked.len() as int;
    let none = Seq::<Step<Text>>::empty();
    match node.file_type {
        NodeFileType::RegularFile => {
            lemma_file_shown(world, path, work, node.origin->0, has_tmpfs, io);
        },
        NodeFileType::Symlink => {
            let source = node.origin->0;
            let steps = symlink_steps(path, work, node.origin);
            assert(steps =~= seq![clone_symlink_step(source, work)] + none);
            let after = lemma_link_made(world, source, work, none, io);
            if !(whole.out is Waiting) {
                assert(whole == done(after, ()));
                let requests = link_requests(world, source, work);
                lemma_stand_at(io.asked, requests, whole.io.asked, from, to);
            }
        },
        NodeFileType::Whiteout => {},
        NodeFileType::Directory => {
            lemma_decision_size(path, node, has_tmpfs, io);
            let decision = tmpfs_decision(path, node, has_tmpfs, io);
            decisions_only_read(path, node, has_tmpfs, io);
            lemma_weaken(io, decision, queries(), no_limits());
            assert(whole == dir_decided(path, work, has_tmpfs, decision));
            match decision.out {
                Outcome::Done((create, decided)) => {
                    decided_dirs_are_orderly(path, work, decided, create, has_tmpfs, decision.io);
                    lemma_truthful_parts(world, io, decision, whole, no_limits());
                    directories_are_rebuilt_where_something_does_not_fit(
                        world,
                        path,
                        node,
                        has_tmpfs,
                        io,
                    );
                    lemma_decided_able(world, path, node, decided, has_tmpfs, has_tmpfs || create);
                    let at = lemma_directory_shown(
                        world,
                        path,
                        work,
                        decided,
                        create,
                        has_tmpfs,
                        decision.io,
                    );
                    if whole.out is Done {
                        lemma_proceeds(io, decision, no_limits());
                        lemma_directory_is_shown(
                            world,
                            whole.io.asked,
                            from,
                            decision.io.asked.len() as int,
                            parent,
                            parent_work,
                            node,
                            decided,
                            has_tmpfs,
                            at.0,
                            at.1,
                        );
                    }
                },
                _ => {},
            }
        },
    }
}

/// How a file is mounted, where all calls succeed.
pub proof fn lemma_file_shown(
    world: World,
    path: Text,
    work: Text,
    source: Text,
    has_tmpfs: bool,
    io: Io,
)
    requires
        obliging(world),
        truthful(world, io, perform(file_steps(path, work, Some(source), has_tmpfs), io)),
    ensures
        ({
            let whole = perform(file_steps(path, work, Some(source), has_tmpfs), io);
            let requests = file_requests(source, path, work, has_tmpfs);
            ||| whole.out is Waiting
            ||| {
                &&& whole.out is Done
                &&& whole.io.asked == io.asked + requests
                &&& asked_at(
                    whole.io.asked,
                    io.asked.len() as int,
                    whole.io.asked.len() as int,
                    io.asked.len() as int,
                    requests,
                )
            }
        }),
{
    let steps = file_steps(path, work, Some(source), has_tmpfs);
    let whole = perform(steps, io);
    let none = Seq::<Step<Text>>::empty();
    let target = if has_tmpfs {
        work
    } else {
        path
    };
    let bind = Request::BindMount { source, target };
    let last = seq![must(bind)];
    assert(last =~= last + none);
    if has_tmpfs {
        let create = Request::CreateFile(work);
        assert(steps =~= seq![must(create)] + last);
        lemma_call_made(world, create, Purpose::Success, last, io);
        if io.rest.len() > 0 {
            lemma_call_made(world, bind, Purpose::Success, none, ask(io, create).io);
        }
        if !(whole.out is Waiting) {
            assert(whole.io.asked =~= io.asked + file_requests(source, path, work, true));
        }
    } else {
        assert(steps =~= last);
        lemma_call_made(world, bind, Purpose::Success, none, io);
        if !(whole.out is Waiting) {
            assert(whole.io.asked =~= io.asked + file_requests(source, path, work, false));
        }
    }
    if !(whole.out is Waiting) {
        let requests = file_requests(source, path, work, has_tmpfs);
        lemma_stand_at(
            io.asked,
            requests,
            whole.io.asked,
            io.asked.len() as int,
            whole.io.asked.len() as int,
        );
    }
}

/// A node stays able to be mounted when children are marked to be left out.
proof fn lemma_decided_able(
    world: World,
    path: Text,
    node: NodeView,
    decided: NodeView,
    has_tmpfs: bool,
    built: bool,
)
    requires
        able(node, built),
        decided == (NodeView { children: decided.children, ..node }),
        decided.children.len() == node.children.len(),
        forall|k: int|
            0 <= k < node.children.len() ==> #[trigger] decided.children[k] == (NodeView {
                skip: left_out(world, path, node, has_tmpfs, k),
                ..node.children[k]
            }),
    ensures
        able(decided, built),
{
    assert forall|i: int, j: int| 0 <= i < j < decided.children.len() implies (
    #[trigger] decided.children[i]).name != (#[trigger] decided.children[j]).name by {
        assert(node.children[i].name != node.children[j].name);
    }
    assert forall|i: int| 0 <= i < decided.children.len() implies {
        &&& sound(#[trigger] decided.children[i])
        &&& decided.origin is Some ==> decided.children[i].origin is Some
    } by {
        assert(sound(node.children[i]));
    }
}

/// What is in a directory was shown between two points, when it is known whether it is built anew.
spec fn directory_shown(
    world: World,
    log: Seq<Request<Text>>,
    from: int,
    path: Text,
    work: Text,
    node: NodeView,
    create: bool,
    has_tmpfs: bool,
    a: int,
    m: int,
) -> bool {
    let built = has_tmpfs || create;
    &&& framed(
        world,
        log,
        from,
        log.len() as int,
        a,
        m,
        path,
        work,
        node.origin,
        create,
        has_tmpfs,
    )
    &&& all_shown(world, log, a, m, path, work, node.children, built)
    &&& built && !node.replace && says_yes(world, Request::Exists(path)) ==> device_kept(
        world,
        log,
        a,
        m,
        path,
        work,
        node.children,
    )
}

/// A directory is shown if what is in it is.
proof fn lemma_directory_is_shown(
    world: World,
    log: Seq<Request<Text>>,
    from: int,
    decided_at: int,
    parent: Text,
    parent_work: Text,
    node: NodeView,
    decided: NodeView,
    has_tmpfs: bool,
    a: int,
    m: int,
)
    requires
        node.file_type == NodeFileType::Directory,
        0 <= from <= decided_at,
        ({
            let path = joined(parent, node.name);
            let work = joined(parent_work, node.name);
            let create = rebuilt(world, path, node, has_tmpfs);
            &&& directory_shown(
                world,
                log,
                decided_at,
                path,
                work,
                decided,
                create,
                has_tmpfs,
                a,
                m,
            )
            &&& decided == (NodeView { children: decided.children, ..node })
            &&& decided.children.len() == node.children.len()
            &&& forall|k: int|
                0 <= k < node.children.len() ==> #[trigger] decided.children[k] == (NodeView {
                    skip: left_out(world, path, node, has_tmpfs, k),
                    ..node.children[k]
                })
        }),
    ensures
        shown(
            world,
            log,
            from,
            log.len() as int,
            parent,
            parent_work,
            node,
            has_tmpfs,
        ),
{
    let path = joined(parent, node.name);
    let work = joined(parent_work, node.name);
    let to = log.len() as int;
    let create = rebuilt(world, path, node, has_tmpfs);
    let built = has_tmpfs || create;
    if built {
        let requests = base_requests(world, path, work, node.origin->0, create);
        let b = choose|b: int| #[trigger] asked_at(log, decided_at, a, b, requests);
        lemma_asked_wider(log, log, decided_at, a, from, a, b, requests);
    }
    assert(framed(
        world,
        log,
        from,
        to,
        a,
        m,
        path,
        work,
        node.origin,
        create,
        has_tmpfs,
    ));
    assert forall|k: int|
        0 <= k < node.children.len() && !left_out(world, path, node, has_tmpfs, k) implies shown(
        world,
        log,
        a,
        m,
        path,
        work,
        #[trigger] node.children[k],
        built,
    ) by {
        assert(decided.children[k] == node.children[k]);
        assert(!decided.children[k].skip);
    }
    if built && !node.replace && says_yes(world, Request::Exists(path)) {
        assert forall|i: int|
            (#[trigger] listed(world, path, i)) is Some && !has_child(
                node.children,
                listed(world, path, i)->0,
            ) implies fully_mirrored(
            world,
            log,
            a,
            m,
            path,
            work,
            listed(world, path, i)->0,
        ) by {
            let entry = listed(world, path, i)->0;
            if has_child(decided.children, entry) {
                let k = choose|k: int|
                    0 <= k < decided.children.len() && (#[trigger] decided.children[k]).name
                        == lossy_text(entry.name);
                assert(node.children[k].name == lossy_text(entry.name));
            }
        }
    }
}

/// How a directory is mounted when it is known whether it is built anew, where all calls succeed.
proof fn lemma_directory_shown(
    world: World,
    path: Text,
    work: Text,
    node: NodeView,
    create: bool,
    has_tmpfs: bool,
    io: Io,
) -> (at: (int, int))
    requires
        obliging(world),
        able(node, has_tmpfs || create),
        truthful(world, io, dir_decided(path, work, has_tmpfs, done(io, (create, node)))),
    ensures
        ({
            let whole = dir_decided(path, work, has_tmpfs, done(io, (create, node)));
            &&& !(whole.out is Fail)
            &&& whole.out is Done ==> directory_shown(
                world,
                whole.io.asked,
                io.asked.len() as int,
                path,
                work,
                node,
                create,
                has_tmpfs,
                at.0,
                at.1,
            )
        }),
    decreases size(node), 8nat, 0nat,
{
    let q = no_limits();
    let has = has_tmpfs || create;
    let whole = dir_decided(path, work, has_tmpfs, done(io, (create, node)));
    let steps = prepare_steps(path, work, node.origin, create, has);
    let prepared = perform(steps, io);
    let inner = dir_prepared(path, work, node, false, has, prepared);
    let finish = finish_steps(path, work, create);
    steps_are_orderly(steps, io);
    prepared_dirs_are_orderly(path, work, node, has, prepared);
    lemma_then(io, prepared, inner, q);
    lemma_finished_last(path, work, node, create, has, prepared);
    assert(whole == dir_filled(path, work, create, inner));
    steps_are_orderly(finish, inner.io);
    if prepared.out is Done && inner.out is Done {
        lemma_truthful_parts(world, io, inner, whole, q);
    } else {
        assert(whole.io == inner.io);
        assert(truthful(world, io, inner));
    }
    if prepared.out is Done {
        lemma_truthful_parts(world, io, prepared, inner, q);
    } else {
        assert(inner.io == prepared.io);
        assert(truthful(world, io, prepared));
    }
    if has {
        lemma_base_made(world, path, work, node.origin->0, create, io);
    } else {
        assert(steps =~= Seq::empty());
    }
    if prepared.out is Done {
        lemma_contents_shown(world, path, work, node, has, prepared);
    }
    if create && inner.out is Done {
        lemma_cover_made(world, path, work, inner.io);
    }
    let a = prepared.io.asked.len() as int;
    let m = inner.io.asked.len() as int;
    if whole.out is Done {
        let log = whole.io.asked;
        lemma_prefix_kept(prepared.io, inner);
        lemma_prefix_kept(inner.io, whole);
        if has {
            let requests = base_requests(world, path, work, node.origin->0, create);
            assert(prepared.io.asked =~= io.asked + requests);
            assert(agree(prepared.io.asked, log, 0, a)) by {
                assert forall|i: int| 0 <= i < a implies #[trigger] prepared.io.asked[i]
                    == log[i] by {
                    assert(prepared.io.asked[i] == inner.io.asked[i]);
                }
            }
            lemma_stand_at(io.asked, requests, log, io.asked.len() as int, a);
        }
        if create {
            let requests = cover_requests(path, work);
            lemma_stand_at(inner.io.asked, requests, log, m, log.len() as int);
        } else {
            assert(finish =~= Seq::empty());
            assert(whole.io == inner.io);
        }
        assert(framed(
            world,
            log,
            io.asked.len() as int,
            log.len() as int,
            a,
            m,
            path,
            work,
            node.origin,
            create,
            has_tmpfs,
        ));
        assert(agree(inner.io.asked, log, a, m));
        assert forall|k: int|
            0 <= k < node.children.len() && !(#[trigger] node.children[k]).skip implies shown(
            world,
            log,
            a,
            m,
            path,
            work,
            node.children[k],
            has,
        ) by {
            let child = node.children[k];
            lemma_shown_wider(
                world,
                inner.io.asked,
                log,
                a,
                m,
                a,
                m,
                path,
                work,
                child,
                has,
            );
        }
        if has && !node.replace && says_yes(world, Request::Exists(path)) {
            lemma_kept_wider(
                world,
                inner.io.asked,
                log,
                a,
                m,
                a,
                m,
                path,
                work,
                node.children,
            );
        }
    }
    (a, m)
}

/// How a directory is filled, where all calls succeed.
proof fn lemma_contents_shown(
    world: World,
    path: Text,
    work: Text,
    node: NodeView,
    has_tmpfs: bool,
    prepared: Run<()>,
)
    requires
        obliging(world),
        able(node, has_tmpfs),
        prepared.out is Done,
        truthful(
            world,
            prepared.io,
            dir_prepared(path, work, node, false, has_tmpfs, prepared),
        ),
    ensures
        ({
            let whole = dir_prepared(path, work, node, false, has_tmpfs, prepared);
            let a = prepared.io.asked.len() as int;
            let m = whole.io.asked.len() as int;
            &&& !(whole.out is Fail)
            &&& whole.out is Done ==> {
                &&& all_shown(
                    world,
                    whole.io.asked,
                    a,
                    m,
                    path,
                    work,
                    node.children,
                    has_tmpfs,
                )
                &&& has_tmpfs && !node.replace && says_yes(world, Request::Exists(path))
                    ==> device_kept(
                    world,
                    whole.io.asked,
                    a,
                    m,
                    path,
                    work,
                    node.children,
                )
            }
        }),
    decreases size(node), 7nat, 0nat,
{
    let q = no_limits();
    let whole = dir_prepared(path, work, node, false, has_tmpfs, prepared);
    let children = node.children;
    let exists_here = Request::Exists(path);
    let look = ask(prepared.io, exists_here);
    let a = prepared.io.asked.len() as int;
    let m = whole.io.asked.len() as int;
    assert(whole == dir_looked_at(path, work, node, false, has_tmpfs, look));
    assert(all_able(children, has_tmpfs)) by {
        assert forall|i: int| 0 <= i < children.len() implies able(
            #[trigger] children[i],
            has_tmpfs,
        ) by {
            assert(sound(node.children[i]));
        }
    }
    if look.out is Done {
        let reply = prepared.io.rest[0];
        if reply == ReplyView::Flag(true) && !node.replace {
            let list = Request::ListDir(path);
            let listing = ask(look.io, list);
            assert(whole == dir_listed(path, work, node, false, has_tmpfs, listing));
            if listing.out is Done {
                lemma_listed_orderly(path, work, node, has_tmpfs, listing);
            }
            lemma_asked(look.io, list, whole, q);
            lemma_truthful_ask(world, prepared.io, exists_here, whole, q);
            if listing.out is Done {
                lemma_truthful_ask(world, look.io, list, whole, q);
                assert(world(list) is Listing);
                let l = world(list)->Listing_0;
                let entries = readable(l);
                let walked = walk(path, work, children, entries, 0, has_tmpfs, listing.io);
                let left = leftover(children, entries, 0);
                assert(whole == dir_walked(
                    path,
                    work,
                    false,
                    false,
                    has_tmpfs,
                    leaving(walked, left),
                )) by {
                    reveal(walk);
                }
                assert forall|k: int| 0 <= k < entries.len() implies fine_entry(
                    world,
                    path,
                    #[trigger] entries[k],
                ) by {
                    let i = lemma_kept_readable(l, k);
                    assert(lists_well(world, path, i));
                }
                lemma_leftover_size(children, entries, 0);
                lemma_leftover_able(children, entries, 0, has_tmpfs);
                walks_are_orderly(path, work, children, entries, 0, has_tmpfs, listing.io);
                let filled = fill(path, work, left, has_tmpfs, walked.io);
                fills_are_orderly(path, work, left, has_tmpfs, walked.io);
                if walked.out is Done {
                    assert(whole == filled) by {
                        lemma_filled_plain(path, work, left, has_tmpfs, walked.io);
                    }
                    lemma_truthful_parts(world, listing.io, walked, whole, q);
                    lemma_fill_shown(world, path, work, left, has_tmpfs, walked.io);
                } else {
                    assert(whole.io == walked.io);
                    assert(truthful(world, listing.io, walked));
                }
                lemma_walk_shown(world, path, work, children, entries, 0, has_tmpfs, listing.io);
                if whole.out is Done {
                    lemma_prefix_kept(walked.io, whole);
                    lemma_prefix_kept(listing.io, walked);
                    let log = whole.io.asked;
                    let start = listing.io.asked.len() as int;
                    let mid = walked.io.asked.len() as int;
                    assert(a <= start <= mid <= m);
                    assert(agree(walked.io.asked, log, start, mid));
                    assert forall|k: int|
                        0 <= k < children.len() && !(#[trigger] children[k]).skip implies shown(
                        world,
                        log,
                        a,
                        m,
                        path,
                        work,
                        children[k],
                        has_tmpfs,
                    ) by {
                        let child = children[k];
                        if has_entry(child, entries, 0) {
                            lemma_shown_wider(
                                world,
                                walked.io.asked,
                                log,
                                start,
                                mid,
                                a,
                                m,
                                path,
                                work,
                                child,
                                has_tmpfs,
                            );
                        } else {
                            lemma_left_over(children, entries, 0, k);
                            let n = choose|n: int| 0 <= n < left.len() && left[n] == child;
                            assert(!left[n].skip);
                            lemma_shown_wider(
                                world,
                                log,
                                log,
                                mid,
                                m,
                                a,
                                m,
                                path,
                                work,
                                child,
                                has_tmpfs,
                            );
                        }
                    }
                    if has_tmpfs {
                        assert forall|i: int|
                            (#[trigger] listed(world, path, i)) is Some && !has_child(
                                children,
                                listed(world, path, i)->0,
                            ) implies fully_mirrored(
                            world,
                            log,
                            a,
                            m,
                            path,
                            work,
                            listed(world, path, i)->0,
                        ) by {
                            let k = lemma_readable_kept(l, i);
                            assert(fully_mirrored(
                                world,
                                walked.io.asked,
                                start,
                                mid,
                                path,
                                work,
                                entries[k],
                            ));
                            lemma_fully_wider(
                                world,
                                walked.io.asked,
                                log,
                                start,
                                mid,
                                a,
                                m,
                                path,
                                work,
                                entries[k],
                            );
                        }
                    }
                }
            }
        } else {
            let start: Run<Seq<NodeView>> = done(look.io, children);
            assert(whole == dir_walked(path, work, false, false, has_tmpfs, start));
            lemma_filled_plain(path, work, children, has_tmpfs, look.io);
            fills_are_orderly(path, work, children, has_tmpfs, look.io);
            lemma_truthful_ask(world, prepared.io, exists_here, whole, q);
            lemma_fill_shown(world, path, work, children, has_tmpfs, look.io);
            if whole.out is Done {
                lemma_prefix_kept(look.io, whole);
                let log = whole.io.asked;
                let mid = look.io.asked.len() as int;
                assert forall|k: int|
                    0 <= k < children.len() && !(#[trigger] children[k]).skip implies shown(
                    world,
                    log,
                    a,
                    m,
                    path,
                    work,
                    children[k],
                    has_tmpfs,
                ) by {
                    let child = children[k];
                    lemma_shown_wider(
                        world,
                        log,
                        log,
                        mid,
                        m,
                        a,
                        m,
                        path,
                        work,
                        child,
                        has_tmpfs,
                    );
                }
            }
        }
    }
}

/// A directory whose entries the host was asked for is in good order.
pub proof fn lemma_listed_orderly(
    path: Text,
    work: Text,
    node: NodeView,
    has_tmpfs: bool,
    listing: Run<ReplyView>,
)
    requires
        listing.out is Done,
        !(node.replace && node.origin is None),
    ensures
        proceeds(
            listing.io,
            dir_listed(path, work, node, false, has_tmpfs, listing),
            no_limits(),
        ),
{
    let q = no_limits();
    let whole = dir_listed(path, work, node, false, has_tmpfs, listing);
    match listing_of(listing.out->Done_0) {
        Ok(entries) => {
            let walked = walk(path, work, node.children, entries, 0, has_tmpfs, listing.io);
            let left = leftover(node.children, entries, 0);
            assert(whole == dir_walked(
                path,
                work,
                false,
                false,
                has_tmpfs,
                leaving(walked, left),
            )) by {
                reveal(walk);
            }
            walks_are_orderly(path, work, node.children, entries, 0, has_tmpfs, listing.io);
            if walked.out is Done {
                lemma_filled_plain(path, work, left, has_tmpfs, walked.io);
                fills_are_orderly(path, work, left, has_tmpfs, walked.io);
            }
            lemma_then(listing.io, walked, whole, q);
        },
        Err(e) => {
            lemma_end(listing.io, Outcome::<()>::Fail(e), q);
        },
    }
}

/// A directory whose children are mounted is as good as its children are.
pub proof fn lemma_filled_plain(
    path: Text,
    work: Text,
    left: Seq<NodeView>,
    has_tmpfs: bool,
    io: Io,
)
    ensures
        dir_walked(path, work, false, false, has_tmpfs, done(io, left)) == fill(
            path,
            work,
            left,
            has_tmpfs,
            io,
        ),
{
    let whole = dir_walked(path, work, false, false, has_tmpfs, done(io, left));
    let filled = fill(path, work, left, has_tmpfs, io);
    assert(whole == dir_filled(path, work, false, filled)) by {
        reveal(fill);
    }
    let steps = finish_steps(path, work, false);
    assert(steps =~= Seq::empty());
    assert(perform(steps, filled.io) == done(filled.io, ()));
    match filled.out {
        Outcome::Done(nothing) => {
            assert(nothing == ());
            assert(whole == filled);
        },
        _ => {},
    }
}

/// The children that are left can be mounted.
proof fn lemma_leftover_able(
    children: Seq<NodeView>,
    entries: Seq<Entry<Text>>,
    i: int,
    has_tmpfs: bool,
)
    requires
        all_able(children, has_tmpfs),
    ensures
        all_able(leftover(children, entries, i), has_tmpfs),
    decreases entries.len() - i,
{
    if 0 <= i < entries.len() {
        let name = lossy_text(entries[i].name);
        lemma_without_able(children, name, has_tmpfs);
        lemma_leftover_able(without(children, name), entries, i + 1, has_tmpfs);
    }
}

/// The children but for one can be mounted.
proof fn lemma_without_able(children: Seq<NodeView>, name: Text, has_tmpfs: bool)
    requires
        all_able(children, has_tmpfs),
    ensures
        all_able(without(children, name), has_tmpfs),
        distinct(children) ==> distinct(without(children, name)),
        forall|entry: Entry<Text>|
            !(#[trigger] has_child(children, entry)) ==> !has_child(
                without(children, name),
                entry,
            ),
{
    let left = without(children, name);
    lemma_position(children, name);
    match position(children, name) {
        Some(p) => {
            assert forall|i: int| 0 <= i < left.len() implies able(
                #[trigger] left[i],
                has_tmpfs,
            ) by {
                let j = if i < p { i } else { i + 1 };
                assert(left[i] == children[j]);
            }
            assert forall|entry: Entry<Text>| !(#[trigger] has_child(children, entry)) implies
                !has_child(left, entry) by {
                if has_child(left, entry) {
                    let i = choose|i: int|
                        0 <= i < left.len() && (#[trigger] left[i]).name == lossy_text(entry.name);
                    let j = if i < p { i } else { i + 1 };
                    assert(children[j].name == lossy_text(entry.name));
                }
            }
            if distinct(children) {
                assert forall|b: int, c: int| 0 <= b < c < left.len() implies (
                #[trigger] left[b]).name != (#[trigger] left[c]).name by {
                    let b2 = if b < p { b } else { b + 1 };
                    let c2 = if c < p { c } else { c + 1 };
                    assert(children[b2].name != children[c2].name);
                }
            }
        },
        None => {},
    }
}

/// How the device's entries are dealt with, where all calls succeed.
proof fn lemma_walk_shown(
    world: World,
    path: Text,
    work: Text,
    children: Seq<NodeView>,
    entries: Seq<Entry<Text>>,
    i: int,
    has_tmpfs: bool,
    io: Io,
)
    requires
        0 <= i,
        obliging(world),
        distinct(children),
        all_able(children, has_tmpfs),
        forall|k: int| 0 <= k < entries.len() ==> fine_entry(world, path, #[trigger] entries[k]),
        truthful(world, io, walk(path, work, children, entries, i, has_tmpfs, io)),
    ensures
        ({
            let whole = walk(path, work, children, entries, i, has_tmpfs, io);
            let from = io.asked.len() as int;
            let to = whole.io.asked.len() as int;
            &&& !(whole.out is Fail)
            &&& whole.out is Done ==> {
                &&& forall|k: int|
                    0 <= k < children.len() && !(#[trigger] children[k]).skip && has_entry(
                        children[k],
                        entries,
                        i,
                    ) ==> shown(
                        world,
                        whole.io.asked,
                        from,
                        to,
                        path,
                        work,
                        children[k],
                        has_tmpfs,
                    )
                &&& has_tmpfs ==> forall|j: int|
                    i <= j < entries.len() && !has_child(children, #[trigger] entries[j])
                        ==> fully_mirrored(
                        world,
                        whole.io.asked,
                        from,
                        to,
                        path,
                        work,
                        entries[j],
                    )
            }
        }),
    decreases sizes(children), 11nat, 2 * still_to_come(entries, i),
{
    reveal(visited);
    reveal(mounted);
    let q = no_limits();
    let whole = walk(path, work, children, entries, i, has_tmpfs, io);
    if i >= entries.len() {
        reveal(walk);
    } else {
        let entry = entries[i];
        let name = lossy_text(entry.name);
        let left = without(children, name);
        let run = visited(path, work, children, entry, has_tmpfs, io);
        lemma_position(children, name);
        lemma_walk_step(path, work, children, entries, i, has_tmpfs, io);
        lemma_walk_on(path, work, left, entries, i + 1, has_tmpfs, run);
        lemma_without_size(children, name);
        lemma_without_able(children, name, has_tmpfs);
        visits_are_orderly(path, work, children, entry, has_tmpfs, io);
        walks_are_orderly(path, work, left, entries, i + 1, has_tmpfs, run.io);
        assert(fine_entry(world, path, entries[i]));
        let p = position(children, name);
        let inner = match p {
            Some(k) => if children[k].skip {
                done(io, ())
            } else {
                mounted(path, work, children[k], has_tmpfs, io)
            },
            None => if has_tmpfs {
                perform(mirror_steps(path, work, entry), io)
            } else {
                done(io, ())
            },
        };
        assert(run.io == inner.io);
        assert(run.out is Waiting <==> inner.out is Waiting);
        assert(run.out is Fail <==> inner.out is Fail);
        if run.out is Waiting {
            assert(whole.io == run.io);
            assert(truthful(world, io, inner));
        } else {
            let result = handled(run, has_tmpfs);
            if result.out is Done {
                assert(whole == walk(path, work, left, entries, i + 1, has_tmpfs, run.io));
                lemma_truthful_parts(world, io, run, whole, q);
            } else {
                assert(whole.io == run.io);
            }
            assert(truthful(world, io, inner));
        }
        match p {
            Some(k) => {
                lemma_sizes_remove(children, k);
                if !children[k].skip {
                    assert(able(children[k], has_tmpfs));
                    mounted_nodes_are_shown(world, path, work, children[k], has_tmpfs, io);
                }
            },
            None => {
                if has_tmpfs {
                    mirroring_is_complete(world, path, work, entry, io);
                }
            },
        }
        assert(!(run.out is Fail));
        if run.out is Done {
            lemma_walk_shown(world, path, work, left, entries, i + 1, has_tmpfs, run.io);
            if whole.out is Done {
                lemma_prefix_kept(io, run);
                lemma_prefix_kept(run.io, whole);
                lemma_walked_on(
                    world,
                    path,
                    work,
                    children,
                    entries,
                    i,
                    has_tmpfs,
                    io,
                    run.io,
                    whole.io,
                );
            }
        }
    }
}

/// What was shown and kept by one entry and those behind it.
proof fn lemma_walked_on(
    world: World,
    path: Text,
    work: Text,
    children: Seq<NodeView>,
    entries: Seq<Entry<Text>>,
    i: int,
    has_tmpfs: bool,
    io: Io,
    mid: Io,
    end: Io,
)
    requires
        0 <= i < entries.len(),
        distinct(children),
        ({
            let left = without(children, lossy_text(entries[i].name));
            let from = io.asked.len() as int;
            let to = mid.asked.len() as int;
            let last = end.asked.len() as int;
            &&& from <= to <= last
            &&& agree(mid.asked, end.asked, 0, to)
            &&& position(children, lossy_text(entries[i].name)) matches Some(k) ==> (
            !children[k].skip ==> shown(
                world,
                mid.asked,
                from,
                to,
                path,
                work,
                children[k],
                has_tmpfs,
            ))
            &&& position(children, lossy_text(entries[i].name)) is None && has_tmpfs
                ==> fully_mirrored(world, mid.asked, from, to, path, work, entries[i])
            &&& forall|k: int|
                0 <= k < left.len() && !(#[trigger] left[k]).skip && has_entry(
                    left[k],
                    entries,
                    i + 1,
                ) ==> shown(world, end.asked, to, last, path, work, left[k], has_tmpfs)
            &&& has_tmpfs ==> forall|j: int|
                i + 1 <= j < entries.len() && !has_child(left, #[trigger] entries[j])
                    ==> fully_mirrored(world, end.asked, to, last, path, work, entries[j])
        }),
    ensures
        ({
            let from = io.asked.len() as int;
            let last = end.asked.len() as int;
            &&& forall|k: int|
                0 <= k < children.len() && !(#[trigger] children[k]).skip && has_entry(
                    children[k],
                    entries,
                    i,
                ) ==> shown(world, end.asked, from, last, path, work, children[k], has_tmpfs)
            &&& has_tmpfs ==> forall|j: int|
                i <= j < entries.len() && !has_child(children, #[trigger] entries[j])
                    ==> fully_mirrored(world, end.asked, from, last, path, work, entries[j])
        }),
{
    let name = lossy_text(entries[i].name);
    let left = without(children, name);
    let from = io.asked.len() as int;
    let to = mid.asked.len() as int;
    let last = end.asked.len() as int;
    lemma_position(children, name);
    assert forall|k: int|
        0 <= k < children.len() && !(#[trigger] children[k]).skip && has_entry(
            children[k],
            entries,
            i,
        ) implies shown(world, end.asked, from, last, path, work, children[k], has_tmpfs) by {
        let child = children[k];
        if child.name == name {
            let p = position(children, name)->0;
            assert(p == k) by {
                if p < k {
                    assert(children[p].name != children[k].name);
                }
            }
            lemma_shown_wider(
                world,
                mid.asked,
                end.asked,
                from,
                to,
                from,
                last,
                path,
                work,
                child,
                has_tmpfs,
            );
        } else {
            let j = choose|j: int|
                i <= j < entries.len() && lossy_text((#[trigger] entries[j]).name) == child.name;
            let n = match position(children, name) {
                Some(p) => if k < p {
                    k
                } else {
                    k - 1
                },
                None => k,
            };
            assert(left[n] == child);
            assert(lossy_text(entries[j].name) == left[n].name);
            assert(has_entry(left[n], entries, i + 1));
            lemma_shown_wider(
                world,
                end.asked,
                end.asked,
                to,
                last,
                from,
                last,
                path,
                work,
                child,
                has_tmpfs,
            );
        }
    }
    if has_tmpfs {
        assert forall|j: int|
            i <= j < entries.len() && !has_child(
                children,
                #[trigger] entries[j],
            ) implies fully_mirrored(
            world,
            end.asked,
            from,
            last,
            path,
            work,
            entries[j],
        ) by {
            if j == i {
                match position(children, name) {
                    Some(p) => {
                        assert(children[p].name == name);
                        assert(has_child(children, entries[i]));
                    },
                    None => {},
                }
                lemma_fully_wider(
                    world,
                    mid.asked,
                    end.asked,
                    from,
                    to,
                    from,
                    last,
                    path,
                    work,
                    entries[j],
                );
            } else {
                assert(!has_child(left, entries[j])) by {
                    if has_child(left, entries[j]) {
                        let b = choose|b: int|
                            0 <= b < left.len() && (#[trigger] left[b]).name == lossy_text(
                                entries[j].name,
                            );
                        let c = match position(children, name) {
                            Some(p) => if b < p {
                                b
                            } else {
                                b + 1
                            },
                            None => b,
                        };
                        assert(children[c] == left[b]);
                        assert(children[c].name == lossy_text(entries[j].name));
                    }
                }
                lemma_fully_wider(
                    world,
                    end.asked,
                    end.asked,
                    to,
                    last,
                    from,
                    last,
                    path,
                    work,
                    entries[j],
                );
            }
        }
    }
}

/// How children are mounted one after the other, where all calls succeed.
proof fn lemma_fill_shown(
    world: World,
    path: Text,
    work: Text,
    children: Seq<NodeView>,
    has_tmpfs: bool,
    io: Io,
)
    requires
        obliging(world),
        all_able(children, has_tmpfs),
        truthful(world, io, fill(path, work, children, has_tmpfs, io)),
    ensures
        ({
            let whole = fill(path, work, children, has_tmpfs, io);
            &&& !(whole.out is Fail)
            &&& whole.out is Done ==> all_shown(
                world,
                whole.io.asked,
                io.asked.len() as int,
                whole.io.asked.len() as int,
                path,
                work,
                children,
                has_tmpfs,
            )
        }),
    decreases sizes(children), 11nat, 0nat,
{
    let q = no_limits();
    let whole = fill(path, work, children, has_tmpfs, io);
    if children.len() == 0 {
        reveal(fill);
    } else {
        let first = children[0];
        let left = children.drop_first();
        let task = Task::MagicMount { path, name: first.name };
        let inner = if first.skip {
            done(io, ())
        } else {
            mounted(path, work, first, has_tmpfs, io)
        };
        let run = noted(task, inner);
        assert(sizes(children) == size(first) + sizes(left));
        assert(size(first) >= 1);
        lemma_fill_step(path, work, children, has_tmpfs, io);
        lemma_fill_on(path, work, left, has_tmpfs, run);
        fills_are_orderly(path, work, left, has_tmpfs, run.io);
        lemma_first_orderly(path, work, first, has_tmpfs, io);
        if run.out is Waiting || !(handled(run, has_tmpfs).out is Done) {
            assert(whole.io == run.io);
        } else {
            assert(whole == fill(path, work, left, has_tmpfs, run.io));
            lemma_truthful_parts(world, io, inner, whole, q);
        }
        assert(truthful(world, io, inner));
        assert(able(children[0], has_tmpfs));
        if !first.skip {
            mounted_nodes_are_shown(world, path, work, first, has_tmpfs, io);
        }
        assert(!(run.out is Fail));
        if run.out is Done {
            assert(all_able(left, has_tmpfs)) by {
                assert forall|k: int| 0 <= k < left.len() implies able(
                    #[trigger] left[k],
                    has_tmpfs,
                ) by {
                    assert(able(children[k + 1], has_tmpfs));
                }
            }
            lemma_fill_shown(world, path, work, left, has_tmpfs, run.io);
            if whole.out is Done {
                lemma_prefix_kept(run.io, whole);
                lemma_prefix_kept(io, inner);
                let from = io.asked.len() as int;
                let mid = run.io.asked.len() as int;
                let to = whole.io.asked.len() as int;
                assert forall|k: int|
                    0 <= k < children.len() && !(#[trigger] children[k]).skip implies shown(
                    world,
                    whole.io.asked,
                    from,
                    to,
                    path,
                    work,
                    children[k],
                    has_tmpfs,
                ) by {
                    if k == 0 {
                        lemma_shown_wider(
                            world,
                            run.io.asked,
                            whole.io.asked,
                            from,
                            mid,
                            from,
                            to,
                            path,
                            work,
                            first,
                            has_tmpfs,
                        );
                    } else {
                        assert(left[k - 1] == children[k]);
                        assert(!left[k - 1].skip);
                        lemma_shown_wider(
                            world,
                            whole.io.asked,
                            whole.io.asked,
                            mid,
                            to,
                            from,
                            to,
                            path,
                            work,
                            children[k],
                            has_tmpfs,
                        );
                    }
                }
            }
        }
    }
}

/// Mounting the first of several children is in good order.
pub proof fn lemma_first_orderly(
    path: Text,
    work: Text,
    child: NodeView,
    has_tmpfs: bool,
    io: Io,
)
    ensures
        proceeds(
            io,
            if child.skip {
                done(io, ())
            } else {
                mounted(path, work, child, has_tmpfs, io)
            },
            no_limits(),
        ),
{
    if child.skip {
        lemma_end(io, Outcome::Done(()), no_limits());
    } else {
        mounting_is_orderly(path, work, child, has_tmpfs, io);
    }
}

} // verus!
