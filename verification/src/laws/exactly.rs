//! Mounting asks for nothing but what shows a node in its place.

use vstd::prelude::*;

use crate::bytes::joined;
use crate::laws::conversation::{lemma_end, proceeds};
use crate::laws::copying::{
    lemma_call_made, lemma_likeness_made, lemma_link_made, lemma_step_taken, link_requests,
    obliging,
};
use crate::laws::directories::steps_follow_each_other;
use crate::laws::finding::{lemma_truthful_ask, truthful, World};
use crate::laws::fitting::{fits, lemma_fits};
use crate::laws::mirroring::{new_dir_requests, new_file_requests};
use crate::laws::mounting::lemma_finished_last;
use crate::laws::reading::{queries, weighing_only_reads};
use crate::laws::showing::{
    base_requests, cover_requests, file_requests, lemma_base_made, lemma_cover_made,
    lemma_file_shown, lemma_filled_plain,
};
use crate::mount::{
    dir_decided, dir_filled, dir_listed, dir_looked_at, dir_prepared, dir_walked, fill,
    finish_steps, leaving, leftover, mounted, prepare_steps, symlink_steps, tmpfs_decision, walk,
    weigh, weighed, with_skipped,
};
use crate::node::{needs_tmpfs, probe_of, NodeFileType, NodeView};
use crate::protocol::{
    ask, done, readable, Entry, FileKind, Io, Outcome, ReplyView, Request, Run, Text,
};
use crate::script::{
    clone_symlink_step, copy_attributes_step, mirror_all, mirror_dir_step, mirror_steps, must,
    perform, Purpose, Step,
};

verus! {

/// Where all calls succeed, mirroring a file or a link asks for just what shows it, and mirroring
/// a directory for just what makes a new one in its likeness and then for what mirrors all that the
/// host lists in it. Anything else is not asked for.
pub proof fn mirroring_asks_for_nothing_else(
    world: World,
    path: Text,
    work: Text,
    entry: Entry<Text>,
    io: Io,
) -> (known: Io)
    requires
        obliging(world),
        entry.kind is Ok,
        entry.kind == Ok::<FileKind, u64>(FileKind::Dir) ==> world(
            Request::Lstat(joined(path, entry.name)),
        ) is Stat,
        truthful(world, io, perform(mirror_steps(path, work, entry), io)),
    ensures
        ({
            let whole = perform(mirror_steps(path, work, entry), io);
            let source = joined(path, entry.name);
            let target = joined(work, entry.name);
            whole.out is Waiting || match entry.kind {
                Ok(FileKind::File) => {
                    &&& whole.out is Done
                    &&& whole.io.asked == io.asked + new_file_requests(source, target)
                },
                Ok(FileKind::Symlink) => {
                    &&& whole.out is Done
                    &&& whole.io.asked == io.asked + link_requests(world, source, target)
                },
                Ok(FileKind::Dir) => {
                    &&& known.asked == io.asked + new_dir_requests(world, source, target)
                    &&& world(Request::ListDir(source)) matches ReplyView::Listing(l)
                    &&& whole == perform(mirror_all(source, target, readable(l)), known)
                },
                _ => whole == done(io, ()),
            }
        }),
{
    let source = joined(path, entry.name);
    let target = joined(work, entry.name);
    let steps = mirror_steps(path, work, entry);
    let whole = perform(steps, io);
    let none = Seq::<Step<Text>>::empty();
    match entry.kind {
        Ok(FileKind::File) => {
            let create = Request::CreateFile(target);
            let bind = Request::BindMount { source, target };
            let last = seq![must(bind)];
            assert(steps =~= seq![must(create)] + last);
            lemma_call_made(world, create, Purpose::Success, last, io);
            if io.rest.len() > 0 {
                let next = ask(io, create).io;
                assert(last =~= last + none);
                lemma_call_made(world, bind, Purpose::Success, none, next);
                if next.rest.len() > 0 {
                    assert(whole.io.asked =~= io.asked + new_file_requests(source, target));
                }
            }
            io
        },
        Ok(FileKind::Symlink) => {
            assert(steps =~= steps + none);
            let after = lemma_link_made(world, source, target, none, io);
            io
        },
        Ok(FileKind::Dir) => {
            let create = Request::CreateDir(target);
            let list = Request::ListDir(source);
            let last = seq![mirror_dir_step(source, target)];
            let behind = seq![copy_attributes_step(false, source, target)] + last;
            assert(steps =~= seq![must(create)] + behind);
            lemma_call_made(world, create, Purpose::Success, behind, io);
            if io.rest.len() > 0 {
                let made = ask(io, create).io;
                let alike = lemma_likeness_made(world, false, source, target, last, made);
                if whole.out is Waiting {
                    io
                } else {
                    assert(last =~= last + none);
                    lemma_step_taken(world, list, Purpose::Mirror { source, target }, none, alike);
                    let known = ask(alike, list).io;
                    assert(world(list) is Listing);
                    let inner = mirror_all(source, target, readable(world(list)->Listing_0));
                    assert(inner + none =~= inner);
                    assert(known.asked =~= io.asked + new_dir_requests(world, source, target));
                    known
                }
            } else {
                io
            }
        },
        _ => io,
    }
}

/// Entries are mirrored one after the other, until one fails.
pub proof fn entries_are_mirrored_in_turn(
    path: Text,
    work: Text,
    entries: Seq<Entry<Text>>,
    io: Io,
)
    ensures
        ({
            let whole = perform(mirror_all(path, work, entries), io);
            if entries.len() == 0 {
                whole == done(io, ())
            } else {
                let first = perform(mirror_steps(path, work, entries[0]), io);
                match first.out {
                    Outcome::Done(_) => whole == perform(
                        mirror_all(path, work, entries.drop_first()),
                        first.io,
                    ),
                    _ => whole == first,
                }
            }
        }),
{
    if entries.len() > 0 {
        steps_follow_each_other(
            mirror_steps(path, work, entries[0]),
            mirror_all(path, work, entries.drop_first()),
            io,
        );
    }
}

/// Where all calls succeed, mounting a file or a link asks for just what shows it.
pub proof fn files_ask_for_nothing_else(
    world: World,
    parent: Text,
    parent_work: Text,
    node: NodeView,
    has_tmpfs: bool,
    io: Io,
)
    requires
        obliging(world),
        node.origin is Some,
        truthful(world, io, mounted(parent, parent_work, node, has_tmpfs, io)),
    ensures
        ({
            let whole = mounted(parent, parent_work, node, has_tmpfs, io);
            let path = joined(parent, node.name);
            let work = joined(parent_work, node.name);
            let source = node.origin->0;
            &&& node.file_type == NodeFileType::RegularFile && !(whole.out is Waiting) ==> {
                &&& whole.out is Done
                &&& whole.io.asked == io.asked + file_requests(source, path, work, has_tmpfs)
            }
            &&& node.file_type == NodeFileType::Symlink && !(whole.out is Waiting) ==> {
                &&& whole.out is Done
                &&& whole.io.asked == io.asked + link_requests(world, source, work)
            }
        }),
{
    reveal(mounted);
    let path = joined(parent, node.name);
    let work = joined(parent_work, node.name);
    let source = node.origin->0;
    if node.file_type == NodeFileType::RegularFile {
        lemma_file_shown(world, path, work, source, has_tmpfs, io);
    }
    if node.file_type == NodeFileType::Symlink {
        let none = Seq::<Step<Text>>::empty();
        assert(symlink_steps(path, work, node.origin) =~= seq![clone_symlink_step(source, work)]
            + none);
        let after = lemma_link_made(world, source, work, none, io);
    }
}

/// The questions that are asked about the children from `i` on. A link needs none. Where a module
/// provides the directory, the first child that does not fit is the last that is asked about.
pub open spec fn questions(world: World, path: Text, node: NodeView, i: int) -> Seq<Request<Text>>
    decreases node.children.len() - i,
{
    if i < 0 || i >= node.children.len() {
        Seq::empty()
    } else {
        let child = node.children[i];
        let place = joined(path, child.name);
        let question = match child.file_type {
            NodeFileType::Symlink => Seq::empty(),
            NodeFileType::Whiteout => seq![Request::Exists(place)],
            _ => seq![Request::Lstat(place)],
        };
        if node.origin is Some && !fits(world, path, child) {
            question
        } else {
            question + questions(world, path, node, i + 1)
        }
    }
}

/// Marks on children make no difference to the questions.
proof fn lemma_same_questions(world: World, path: Text, node: NodeView, k: int, i: int)
    requires
        0 <= k < i,
        k < node.children.len(),
    ensures
        questions(world, path, with_skipped(node, k), i) == questions(world, path, node, i),
    decreases node.children.len() - i,
{
    if i < node.children.len() {
        assert(with_skipped(node, k).children[i] == node.children[i]);
        lemma_same_questions(world, path, node, k, i + 1);
    }
}

/// What is asked when the children from `i` on are held against the device's files.
proof fn lemma_weighing_asks(world: World, path: Text, node: NodeView, i: int, io: Io)
    requires
        0 <= i,
        truthful(world, io, weigh(path, node, i, io)),
    ensures
        weigh(path, node, i, io).out is Done ==> weigh(path, node, i, io).io.asked == io.asked
            + questions(world, path, node, i),
    decreases node.children.len() - i,
{
    let whole = weigh(path, node, i, io);
    let wanted = questions(world, path, node, i);
    if i >= node.children.len() {
        assert(io.asked + wanted =~= io.asked);
    } else {
        let child = node.children[i];
        let skipped = with_skipped(node, i);
        let needed = !fits(world, path, child);
        lemma_fits(world, path, child);
        lemma_same_questions(world, path, node, i, i + 1);
        let rest = if needed {
            skipped
        } else {
            node
        };
        match probe_of(child.file_type, joined(path, child.name)) {
            Some(request) => {
                let run = ask(io, request);
                if run.out is Done {
                    let reply = io.rest[0];
                    let found = needs_tmpfs(child.file_type, reply);
                    assert(whole == weighed(path, node, i, found, run.io));
                    lemma_weighed_reads(path, node, i, found, run.io);
                    lemma_truthful_ask(world, io, request, whole, queries());
                    assert(found == needed);
                    if !(needed && node.origin is Some) {
                        assert(whole == weigh(path, rest, i + 1, run.io));
                        lemma_weighing_asks(world, path, rest, i + 1, run.io);
                    }
                    if whole.out is Done {
                        assert(whole.io.asked =~= io.asked + wanted);
                    }
                }
            },
            None => {
                assert(whole == weighed(path, node, i, true, io));
                if !(node.origin is Some) {
                    assert(whole == weigh(path, rest, i + 1, io));
                    lemma_weighing_asks(world, path, rest, i + 1, io);
                }
                if whole.out is Done {
                    assert(whole.io.asked =~= io.asked + wanted);
                }
            },
        }
    }
}

/// Going on with a decision only reads.
proof fn lemma_weighed_reads(path: Text, node: NodeView, i: int, needed: bool, io: Io)
    requires
        0 <= i < node.children.len(),
    ensures
        proceeds(io, weighed(path, node, i, needed, io), queries()),
{
    weighing_only_reads(path, node, i + 1, io);
    weighing_only_reads(path, with_skipped(node, i), i + 1, io);
    lemma_end(io, Outcome::Done((true, node)), queries());
}

/// Deciding on a directory asks about its children in turn, each by its own path, and about nothing
/// else. Inside a directory that is built anew, and for one that replaces the device's, nothing is
/// asked.
pub proof fn decisions_ask_about_children_in_turn(
    world: World,
    path: Text,
    node: NodeView,
    has_tmpfs: bool,
    io: Io,
)
    requires
        truthful(world, io, tmpfs_decision(path, node, has_tmpfs, io)),
    ensures
        ({
            let run = tmpfs_decision(path, node, has_tmpfs, io);
            run.out is Done ==> run.io.asked == if has_tmpfs || (node.replace
                && node.origin is Some) {
                io.asked
            } else {
                io.asked + questions(world, path, node, 0)
            }
        }),
{
    if !has_tmpfs && !(node.replace && node.origin is Some) {
        lemma_weighing_asks(world, path, node, 0, io);
    }
}

/// Where all calls succeed, a directory is built anew by just what builds it, filled, and put over
/// the device's by just what does that.
pub proof fn directories_ask_for_nothing_else(
    world: World,
    path: Text,
    work: Text,
    node: NodeView,
    create: bool,
    has_tmpfs: bool,
    io: Io,
)
    requires
        obliging(world),
        has_tmpfs || create ==> node.origin is Some,
        ({
            let has = has_tmpfs || create;
            let prepared = perform(prepare_steps(path, work, node.origin, create, has), io);
            let inner = dir_prepared(path, work, node, false, has, prepared);
            &&& truthful(world, io, prepared)
            &&& inner.out is Done ==> truthful(
                world,
                inner.io,
                perform(finish_steps(path, work, create), inner.io),
            )
        }),
    ensures
        ({
            let has = has_tmpfs || create;
            let prepared = perform(prepare_steps(path, work, node.origin, create, has), io);
            let inner = dir_prepared(path, work, node, false, has, prepared);
            let whole = dir_decided(path, work, has_tmpfs, done(io, (create, node)));
            &&& prepared.out is Done ==> prepared.io.asked == io.asked + if has {
                base_requests(world, path, work, node.origin->0, create)
            } else {
                Seq::empty()
            }
            &&& whole.out is Done ==> {
                &&& inner.out is Done
                &&& whole.io.asked == inner.io.asked + if create {
                    cover_requests(path, work)
                } else {
                    Seq::empty()
                }
            }
        }),
{
    let has = has_tmpfs || create;
    let steps = prepare_steps(path, work, node.origin, create, has);
    let prepared = perform(steps, io);
    let inner = dir_prepared(path, work, node, false, has, prepared);
    let whole = dir_decided(path, work, has_tmpfs, done(io, (create, node)));
    lemma_finished_last(path, work, node, create, has, prepared);
    assert(whole == dir_filled(path, work, create, inner));
    if has {
        lemma_base_made(world, path, work, node.origin->0, create, io);
    } else {
        assert(steps =~= Seq::empty());
        assert(io.asked + Seq::empty() =~= io.asked);
    }
    if inner.out is Done {
        if create {
            lemma_cover_made(world, path, work, inner.io);
        } else {
            assert(finish_steps(path, work, create) =~= Seq::empty());
            assert(inner.io.asked + Seq::empty() =~= inner.io.asked);
        }
    }
}

/// Filling a directory asks whether the device has it and, if so and unless it is replaced, what it
/// holds. The device's entries are dealt with first, and behind them the children without an entry.
pub proof fn contents_are_dealt_with_in_turn(
    path: Text,
    work: Text,
    node: NodeView,
    has_tmpfs: bool,
    prepared: Run<()>,
)
    requires
        prepared.out is Done,
        !(node.replace && node.origin is None),
        prepared.io.rest.len() >= 2,
    ensures
        ({
            let whole = dir_prepared(path, work, node, false, has_tmpfs, prepared);
            let looked = ask(prepared.io, Request::Exists(path)).io;
            let known = ask(looked, Request::ListDir(path)).io;
            if prepared.io.rest[0] == ReplyView::Flag(true) && !node.replace {
                prepared.io.rest[1] matches ReplyView::Listing(l) ==> {
                    let entries = readable(l);
                    let walked = walk(path, work, node.children, entries, 0, has_tmpfs, known);
                    match walked.out {
                        Outcome::Done(_) => whole == fill(
                            path,
                            work,
                            leftover(node.children, entries, 0),
                            has_tmpfs,
                            walked.io,
                        ),
                        _ => whole == walked,
                    }
                }
            } else {
                whole == fill(path, work, node.children, has_tmpfs, looked)
            }
        }),
{
    let whole = dir_prepared(path, work, node, false, has_tmpfs, prepared);
    let look = ask(prepared.io, Request::Exists(path));
    assert(whole == dir_looked_at(path, work, node, false, has_tmpfs, look));
    if prepared.io.rest[0] == ReplyView::Flag(true) && !node.replace {
        let listing = ask(look.io, Request::ListDir(path));
        assert(look.io.rest[0] == prepared.io.rest[1]);
        assert(whole == dir_listed(path, work, node, false, has_tmpfs, listing));
        if let ReplyView::Listing(l) = prepared.io.rest[1] {
            let entries = readable(l);
            let walked = walk(path, work, node.children, entries, 0, has_tmpfs, listing.io);
            let left = leftover(node.children, entries, 0);
            assert(whole == dir_walked(
                path,
                work,
                false,
                false,
                has_tmpfs,
                leaving(walked, left),
            )) by {
                reveal(walk);
            }
            if walked.out is Done {
                lemma_filled_plain(path, work, left, has_tmpfs, walked.io);
            }
        }
    } else {
        let start: Run<Seq<NodeView>> = done(look.io, node.children);
        assert(whole == dir_walked(path, work, false, false, has_tmpfs, start));
        lemma_filled_plain(path, work, node.children, has_tmpfs, look.io);
    }
}

} // verus!
