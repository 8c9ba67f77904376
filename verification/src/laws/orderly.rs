//! Mounting carries a conversation on in good order, whatever the tree and the replies.

use vstd::prelude::*;

use crate::bytes::{joined, lossy_text};
use crate::laws::conversation::{
    lemma_end, lemma_recast, lemma_then, lemma_weaken, no_limits, proceeds,
};
use crate::laws::mounting::lemma_finished_last;
use crate::laws::reading::{decisions_only_read, lemma_asked, queries};
use crate::mount::{
    dir_decided, dir_filled, dir_listed, dir_looked_at, dir_prepared, dir_walked, file_steps, fill,
    finish_steps, handled, leaving, leftover, lemma_decision_size, lemma_fill_on, lemma_fill_step,
    lemma_leftover_size, lemma_sizes_remove, lemma_walk_on, lemma_walk_step, lemma_without_size,
    mounted, prepare_steps, size, sizes, symlink_steps, tmpfs_decision, visited, walk, without,
};
use crate::node::{lemma_position, position, NodeFileType, NodeView};
use crate::protocol::{
    ask, done, flag_of, listing_of, noted, still_to_come, Entry, Io, Outcome, Request, Run, Task,
    Text,
};
use crate::script::{consequence, mirror_steps, perform, perform_reply, Step};

verus! {

/// Performing steps is in good order.
pub proof fn steps_are_orderly(steps: Seq<Step<Text>>, io: Io)
    ensures
        proceeds(io, perform(steps, io), no_limits()),
    decreases io.rest.len(),
{
    let q = no_limits();
    let whole = perform(steps, io);
    if steps.len() == 0 {
        lemma_end(io, Outcome::Done(()), q);
    } else {
        match steps[0] {
            Step::Abort(e) => {
                lemma_end(io, Outcome::<()>::Fail(e), q);
            },
            Step::Ask(request, purpose) => {
                let run = ask(io, request);
                match run.out {
                    Outcome::Done(reply) => {
                        let rest = steps.drop_first();
                        assert(whole == perform_reply(purpose, rest, reply, run.io));
                        match consequence(purpose, reply) {
                            Ok(more) => {
                                steps_are_orderly(more + rest, run.io);
                            },
                            Err(e) => {
                                lemma_end(run.io, Outcome::<()>::Fail(e), q);
                            },
                        }
                    },
                    _ => {},
                }
                lemma_asked(io, request, whole, q);
            },
        }
    }
}

/// A computation is in good order as part of a task.
proof fn lemma_noted_orderly(task: Task<Text>, io: Io, run: Run<()>)
    requires
        proceeds(io, run, no_limits()),
    ensures
        proceeds(io, noted(task, run), no_limits()),
{
    lemma_recast(io, run, noted(task, run).out, no_limits());
}

/// Passing over an error is in good order.
pub proof fn lemma_handled_orderly(io: Io, run: Run<()>, has_tmpfs: bool)
    requires
        proceeds(io, run, no_limits()),
    ensures
        proceeds(io, handled(run, has_tmpfs), no_limits()),
{
    lemma_recast(io, run, handled(run, has_tmpfs).out, no_limits());
}

/// Mounting a node is in good order.
pub proof fn mounting_is_orderly(
    parent: Text,
    parent_work: Text,
    node: NodeView,
    has_tmpfs: bool,
    io: Io,
)
    ensures
        proceeds(io, mounted(parent, parent_work, node, has_tmpfs, io), no_limits()),
    decreases size(node), 9nat, 0nat,
{
    reveal(mounted);
    let q = no_limits();
    let path = joined(parent, node.name);
    let work = joined(parent_work, node.name);
    let whole = mounted(parent, parent_work, node, has_tmpfs, io);
    match node.file_type {
        NodeFileType::RegularFile => {
            steps_are_orderly(
                file_steps(path, work, node.origin, has_tmpfs),
                io,
            );
        },
        NodeFileType::Symlink => {
            steps_are_orderly(symlink_steps(path, work, node.origin), io);
        },
        NodeFileType::Directory => {
            let decision = tmpfs_decision(path, node, has_tmpfs, io);
            lemma_decision_size(path, node, has_tmpfs, io);
            decisions_only_read(path, node, has_tmpfs, io);
            lemma_weaken(io, decision, queries(), q);
            assert(whole == dir_decided(path, work, has_tmpfs, decision));
            match decision.out {
                Outcome::Done((create, decided)) => {
                    decided_dirs_are_orderly(path, work, decided, create, has_tmpfs, decision.io);
                },
                _ => {},
            }
            lemma_then(io, decision, whole, q);
        },
        NodeFileType::Whiteout => {
            lemma_end(io, Outcome::Done(()), q);
        },
    }
}

/// A directory is in good order once it is known whether it is built anew.
pub proof fn decided_dirs_are_orderly(
    path: Text,
    work: Text,
    node: NodeView,
    create: bool,
    has_tmpfs: bool,
    io: Io,
)
    ensures
        proceeds(
            io,
            dir_decided(path, work, has_tmpfs, done(io, (create, node))),
            no_limits(),
        ),
    decreases size(node), 8nat, 0nat,
{
    let q = no_limits();
    let has = has_tmpfs || create;
    let whole = dir_decided(path, work, has_tmpfs, done(io, (create, node)));
    let steps = prepare_steps(path, work, node.origin, create, has);
    let prepared = perform(steps, io);
    let inner = dir_prepared(path, work, node, false, has, prepared);
    steps_are_orderly(steps, io);
    prepared_dirs_are_orderly(path, work, node, has, prepared);
    match prepared.out {
        Outcome::Done(_) => {},
        _ => {},
    }
    lemma_then(io, prepared, inner, q);
    lemma_finished_last(path, work, node, create, has, prepared);
    assert(whole == dir_filled(path, work, create, inner));
    match inner.out {
        Outcome::Done(_) => {
            steps_are_orderly(finish_steps(path, work, create), inner.io);
        },
        _ => {},
    }
    lemma_then(io, inner, whole, q);
}

/// A directory is in good order from where it is ready to be filled.
pub proof fn prepared_dirs_are_orderly(
    path: Text,
    work: Text,
    node: NodeView,
    has_tmpfs: bool,
    prepared: Run<()>,
)
    ensures
        prepared.out is Done ==> proceeds(
            prepared.io,
            dir_prepared(path, work, node, false, has_tmpfs, prepared),
            no_limits(),
        ),
    decreases size(node), 7nat, 0nat,
{
    let q = no_limits();
    let whole = dir_prepared(path, work, node, false, has_tmpfs, prepared);
    let replaced_root = node.replace && node.origin is None;
    if prepared.out is Done {
        let request = Request::Exists(path);
        let look = ask(prepared.io, request);
        assert(whole == dir_looked_at(path, work, node, false, has_tmpfs, look));
        match look.out {
            Outcome::Done(reply) => {
                if flag_of(reply) && !node.replace {
                    let list = Request::ListDir(path);
                    let listed = ask(look.io, list);
                    assert(whole == dir_listed(path, work, node, false, has_tmpfs, listed));
                    match listed.out {
                        Outcome::Done(listing) => match listing_of(listing) {
                            Ok(entries) => {
                                let walked = walk(
                                    path,
                                    work,
                                    node.children,
                                    entries,
                                    0,
                                    has_tmpfs,
                                    listed.io,
                                );
                                let left = leftover(node.children, entries, 0);
                                assert(whole == dir_walked(
                                    path,
                                    work,
                                    replaced_root,
                                    false,
                                    has_tmpfs,
                                    leaving(walked, left),
                                )) by {
                                    reveal(walk);
                                }
                                lemma_leftover_size(node.children, entries, 0);
                                walks_are_orderly(
                                    path,
                                    work,
                                    node.children,
                                    entries,
                                    0,
                                    has_tmpfs,
                                    listed.io,
                                );
                                if walked.out is Done {
                                    filled_dirs_are_orderly(
                                        path,
                                        work,
                                        left,
                                        replaced_root,
                                        has_tmpfs,
                                        walked.io,
                                    );
                                }
                                lemma_then(listed.io, walked, whole, q);
                            },
                            Err(e) => {
                                lemma_end(listed.io, Outcome::<()>::Fail(e), q);
                            },
                        },
                        _ => {},
                    }
                    lemma_asked(look.io, list, whole, q);
                } else {
                    let start: Run<Seq<NodeView>> = done(look.io, node.children);
                    assert(whole == dir_walked(
                        path,
                        work,
                        replaced_root,
                        false,
                        has_tmpfs,
                        start,
                    ));
                    filled_dirs_are_orderly(
                        path,
                        work,
                        node.children,
                        replaced_root,
                        has_tmpfs,
                        look.io,
                    );
                }
            },
            _ => {},
        }
        lemma_asked(prepared.io, request, whole, q);
    }
}

/// A directory whose entries have been dealt with is in good order.
proof fn filled_dirs_are_orderly(
    path: Text,
    work: Text,
    left: Seq<NodeView>,
    replaced_root: bool,
    has_tmpfs: bool,
    io: Io,
)
    ensures
        proceeds(
            io,
            dir_walked(path, work, replaced_root, false, has_tmpfs, done(io, left)),
            no_limits(),
        ),
    decreases sizes(left) + 1, 4nat, 0nat,
{
    let q = no_limits();
    let whole = dir_walked(path, work, replaced_root, false, has_tmpfs, done(io, left));
    if replaced_root {
        lemma_end(io, whole.out, q);
    } else {
        let filled = fill(path, work, left, has_tmpfs, io);
        fills_are_orderly(path, work, left, has_tmpfs, io);
        assert(whole == dir_filled(path, work, false, filled)) by {
            reveal(fill);
        }
        lemma_end(filled.io, Outcome::Done(()), q);
        lemma_then(io, filled, whole, q);
    }
}

/// Dealing with one of the device's entries is in good order.
pub proof fn visits_are_orderly(
    path: Text,
    work: Text,
    children: Seq<NodeView>,
    entry: Entry<Text>,
    has_tmpfs: bool,
    io: Io,
)
    ensures
        proceeds(io, visited(path, work, children, entry, has_tmpfs, io), no_limits()),
    decreases sizes(children), 10nat, 0nat,
{
    reveal(visited);
    reveal(mounted);
    let name = lossy_text(entry.name);
    lemma_end(io, Outcome::Done(()), no_limits());
    lemma_position(children, name);
    match position(children, name) {
        Some(k) => {
            lemma_sizes_remove(children, k);
            if !children[k].skip {
                mounting_is_orderly(path, work, children[k], has_tmpfs, io);
                let run = mounted(path, work, children[k], has_tmpfs, io);
                lemma_noted_orderly(Task::MagicMount { path, name }, io, run);
            }
        },
        None => {
            if has_tmpfs {
                steps_are_orderly(mirror_steps(path, work, entry), io);
                let run = perform(mirror_steps(path, work, entry), io);
                lemma_noted_orderly(Task::MountMirror { path, name }, io, run);
            }
        },
    }
}

/// Dealing with the device's entries is in good order.
pub proof fn walks_are_orderly(
    path: Text,
    work: Text,
    children: Seq<NodeView>,
    entries: Seq<Entry<Text>>,
    i: int,
    has_tmpfs: bool,
    io: Io,
)
    ensures
        proceeds(io, walk(path, work, children, entries, i, has_tmpfs, io), no_limits()),
    decreases sizes(children), 11nat, 2 * still_to_come(entries, i),
{
    let q = no_limits();
    if i < 0 || i >= entries.len() {
        reveal(walk);
        lemma_end(io, Outcome::Done(()), q);
    } else {
        let name = lossy_text(entries[i].name);
        let left = without(children, name);
        let run = visited(path, work, children, entries[i], has_tmpfs, io);
        let result = handled(run, has_tmpfs);
        let whole = walk(path, work, children, entries, i, has_tmpfs, io);
        visits_are_orderly(path, work, children, entries[i], has_tmpfs, io);
        lemma_handled_orderly(io, run, has_tmpfs);
        lemma_walk_step(path, work, children, entries, i, has_tmpfs, io);
        lemma_walk_on(path, work, left, entries, i + 1, has_tmpfs, run);
        lemma_without_size(children, name);
        match result.out {
            Outcome::Done(_) => {
                walks_are_orderly(path, work, left, entries, i + 1, has_tmpfs, result.io);
            },
            _ => {},
        }
        lemma_then(io, result, whole, q);
    }
}

/// Mounting several children is in good order.
pub proof fn fills_are_orderly(
    path: Text,
    work: Text,
    children: Seq<NodeView>,
    has_tmpfs: bool,
    io: Io,
)
    ensures
        proceeds(io, fill(path, work, children, has_tmpfs, io), no_limits()),
    decreases sizes(children), 11nat, 0nat,
{
    let q = no_limits();
    if children.len() == 0 {
        reveal(fill);
        lemma_end(io, Outcome::Done(()), q);
    } else {
        let first = children[0];
        let left = children.drop_first();
        let task = Task::MagicMount { path, name: first.name };
        let inner = if first.skip {
            done(io, ())
        } else {
            mounted(path, work, first, has_tmpfs, io)
        };
        let run = noted(task, inner);
        let result = handled(run, has_tmpfs);
        let whole = fill(path, work, children, has_tmpfs, io);
        assert(sizes(children) == size(first) + sizes(left));
        assert(size(first) >= 1);
        if first.skip {
            lemma_end(io, Outcome::Done(()), q);
        } else {
            mounting_is_orderly(path, work, first, has_tmpfs, io);
        }
        lemma_noted_orderly(task, io, inner);
        lemma_handled_orderly(io, run, has_tmpfs);
        lemma_fill_step(path, work, children, has_tmpfs, io);
        lemma_fill_on(path, work, left, has_tmpfs, run);
        match result.out {
            Outcome::Done(_) => {
                fills_are_orderly(path, work, left, has_tmpfs, result.io);
            },
            _ => {},
        }
        lemma_then(io, result, whole, q);
    }
}

} // verus!
