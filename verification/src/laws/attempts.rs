//! No child is forgotten when a directory is mounted.

use vstd::prelude::*;

use crate::bytes::{joined, lossy_text};
use crate::laws::conversation::{lemma_proceeds, lemma_replies_stay, proceeds, Limits};
use crate::laws::mounting::{
    all_ready, confined, fill_stays_confined, lemma_handled, lemma_leftover_ready,
    lemma_noted, lemma_without_ready, mounting_stays_confined, ready, visited_stays_confined,
    walk_stays_confined, Places,
};
use crate::laws::tree::{
    lemma_plain_ask, lemma_plain_listing, plain_entry, plain_replies, plain_reply, sound, within,
};
use crate::mount::{
    dir_filled, dir_listed, dir_looked_at, dir_prepared, dir_walked, file_steps, fill, handled,
    leaving, leftover, lemma_fill_on, lemma_fill_step, lemma_walk_on, lemma_walk_step, mounted,
    visited, walk, without,
};
use crate::node::{distinct, lemma_position, position, NodeFileType, NodeView};
use crate::protocol::{
    ask, done, flag_of, listing_of, noted, still_to_come, Entry, Io, Outcome, ReplyView, Request,
    Run, Task, Text,
};
use crate::script::{perform, perform_reply, Purpose, Step};

verus! {

/// One conversation goes on from another.
pub open spec fn goes_on(earlier: Io, later: Io) -> bool {
    &&& earlier.asked.len() <= later.asked.len()
    &&& later.asked.take(earlier.asked.len() as int) == earlier.asked
}

/// What goes on from what goes on goes on.
proof fn lemma_goes_on(a: Io, b: Io, c: Io)
    requires
        goes_on(a, b),
        goes_on(b, c),
    ensures
        goes_on(a, c),
{
    assert(c.asked.take(a.asked.len() as int) =~= c.asked.take(b.asked.len() as int).take(
        a.asked.len() as int,
    ));
}

/// One conversation goes on from another, with the replies that the other left.
pub open spec fn follows(earlier: Io, later: Io) -> bool {
    &&& goes_on(earlier, later)
    &&& later.asked.len() - earlier.asked.len() <= earlier.rest.len()
    &&& later.rest == earlier.rest.skip(later.asked.len() - earlier.asked.len())
}

/// What follows from what follows follows.
proof fn lemma_follows(a: Io, b: Io, c: Io)
    requires
        follows(a, b),
        follows(b, c),
    ensures
        follows(a, c),
{
    lemma_goes_on(a, b, c);
    assert(c.rest =~= a.rest.skip(c.asked.len() - a.asked.len()));
}

/// A computation in good order goes on from where it started.
proof fn lemma_proceeds_goes_on<T>(io: Io, run: Run<T>, limits: Limits)
    requires
        proceeds(io, run, limits),
    ensures
        goes_on(io, run.io),
        !(run.out is Waiting) ==> follows(io, run.io),
{
    lemma_proceeds(io, run, limits);
}

/// Mounting a child has been gone through at some point between two states of a conversation.
pub open spec fn attempted(
    path: Text,
    work: Text,
    child: NodeView,
    has_tmpfs: bool,
    earlier: Io,
    later: Io,
) -> bool {
    exists|start: Io|
        follows(earlier, start) && goes_on(
            (#[trigger] mounted(path, work, child, has_tmpfs, start)).io,
            later,
        )
}

/// What has been gone through stays so in a longer stretch of the conversation.
proof fn lemma_attempted_between(
    path: Text,
    work: Text,
    child: NodeView,
    has_tmpfs: bool,
    before: Io,
    earlier: Io,
    later: Io,
    after: Io,
)
    requires
        follows(before, earlier),
        attempted(path, work, child, has_tmpfs, earlier, later),
        goes_on(later, after),
    ensures
        attempted(path, work, child, has_tmpfs, before, after),
{
    let start = choose|start: Io|
        follows(earlier, start) && goes_on(
            (#[trigger] mounted(path, work, child, has_tmpfs, start)).io,
            later,
        );
    lemma_follows(before, earlier, start);
    lemma_goes_on(mounted(path, work, child, has_tmpfs, start).io, later, after);
}

/// A conversation follows from itself.
proof fn lemma_follows_itself(io: Io)
    ensures
        follows(io, io),
{
    assert(io.asked.take(io.asked.len() as int) =~= io.asked);
    assert(io.rest.skip(0) =~= io.rest);
}

/// Mounting the children one after the other goes through all of them, but for those that are to
/// be left out.
pub proof fn filling_attempts_all(
    places: Places,
    path: Text,
    work: Text,
    children: Seq<NodeView>,
    has_tmpfs: bool,
    io: Io,
)
    requires
        all_ready(places, children, has_tmpfs),
        within(places.device, path),
        within(places.work, work),
        plain_replies(io),
        fill(path, work, children, has_tmpfs, io).out is Done,
    ensures
        forall|i: int|
            0 <= i < children.len() && !(#[trigger] children[i]).skip ==> attempted(
                path,
                work,
                children[i],
                has_tmpfs,
                io,
                fill(path, work, children, has_tmpfs, io).io,
            ),
    decreases children.len(),
{
    if children.len() > 0 {
        let limits = confined(places);
        let first = children[0];
        let left = children.drop_first();
        let whole = fill(path, work, children, has_tmpfs, io);
        let run = noted(
            Task::MagicMount { path, name: first.name },
            if first.skip {
                done(io, ())
            } else {
                mounted(path, work, first, has_tmpfs, io)
            },
        );
        assert(ready(places, first, has_tmpfs));
        lemma_fill_step(path, work, children, has_tmpfs, io);
        lemma_fill_on(path, work, left, has_tmpfs, run);
        assert(handled(run, has_tmpfs).out is Done);
        assert(whole == fill(path, work, left, has_tmpfs, run.io));
        assert forall|i: int| 0 <= i < left.len() implies ready(
            places,
            #[trigger] left[i],
            has_tmpfs,
        ) by {
            assert(ready(places, children[i + 1], has_tmpfs));
        }
        if !first.skip {
            mounting_stays_confined(places, path, work, first, has_tmpfs, io);
            let inner = mounted(path, work, first, has_tmpfs, io);
            lemma_noted(places, Task::MagicMount { path, name: first.name }, io, inner);
            lemma_replies_stay(io, run, limits, |r: ReplyView| plain_reply(r));
        }
        fill_stays_confined(places, path, work, left, has_tmpfs, run.io);
        lemma_proceeds_goes_on(run.io, whole, limits);
        filling_attempts_all(places, path, work, left, has_tmpfs, run.io);
        lemma_follows_itself(io);
        lemma_follows_itself(whole.io);
        assert(follows(io, run.io)) by {
            if !first.skip {
                lemma_proceeds_goes_on(io, run, limits);
            }
        }
        assert forall|i: int|
            0 <= i < children.len() && !(#[trigger] children[i]).skip implies attempted(
            path,
            work,
            children[i],
            has_tmpfs,
            io,
            whole.io,
        ) by {
            if i == 0 {
                assert(goes_on(mounted(path, work, first, has_tmpfs, io).io, whole.io));
            } else {
                assert(left[i - 1] == children[i]);
                lemma_attempted_between(
                    path,
                    work,
                    children[i],
                    has_tmpfs,
                    io,
                    run.io,
                    whole.io,
                    whole.io,
                );
            }
        }
    }
}

/// A child has the name of one of the entries from `i` on.
pub open spec fn has_entry(child: NodeView, entries: Seq<Entry<Text>>, i: int) -> bool {
    exists|j: int|
        i <= j < entries.len() && lossy_text((#[trigger] entries[j]).name) == child.name
}

/// A child without an entry of its name is left over.
pub proof fn lemma_left_over(
    children: Seq<NodeView>,
    entries: Seq<Entry<Text>>,
    i: int,
    k: int,
)
    requires
        0 <= i,
        0 <= k < children.len(),
        !has_entry(children[k], entries, i),
    ensures
        leftover(children, entries, i).contains(children[k]),
    decreases entries.len() - i,
{
    if i < entries.len() {
        let name = lossy_text(entries[i].name);
        let left = without(children, name);
        lemma_position(children, name);
        assert(children[k].name != name);
        let m = match position(children, name) {
            Some(p) => if k < p {
                k
            } else {
                k - 1
            },
            None => k,
        };
        assert(left[m] == children[k]);
        assert(!has_entry(left[m], entries, i + 1)) by {
            if has_entry(left[m], entries, i + 1) {
                let j = choose|j: int|
                    i + 1 <= j < entries.len() && lossy_text((#[trigger] entries[j]).name)
                        == left[m].name;
                assert(lossy_text(entries[j].name) == children[k].name);
            }
        }
        lemma_left_over(left, entries, i + 1, m);
    } else {
        assert(children[k] == leftover(children, entries, i)[k]);
    }
}

/// Dealing with the device's entries goes through all children of their names, but for those that
/// are to be left out.
pub proof fn walking_attempts_all(
    places: Places,
    path: Text,
    work: Text,
    children: Seq<NodeView>,
    entries: Seq<Entry<Text>>,
    i: int,
    has_tmpfs: bool,
    io: Io,
)
    requires
        0 <= i,
        distinct(children),
        all_ready(places, children, has_tmpfs),
        within(places.device, path),
        within(places.work, work),
        plain_replies(io),
        forall|j: int| 0 <= j < entries.len() ==> plain_entry(#[trigger] entries[j]),
        walk(path, work, children, entries, i, has_tmpfs, io).out is Done,
    ensures
        forall|k: int|
            0 <= k < children.len() && !(#[trigger] children[k]).skip && has_entry(
                children[k],
                entries,
                i,
            ) ==> attempted(
                path,
                work,
                children[k],
                has_tmpfs,
                io,
                walk(path, work, children, entries, i, has_tmpfs, io).io,
            ),
    decreases still_to_come(entries, i),
{
    if i < entries.len() {
        let limits = confined(places);
        let name = lossy_text(entries[i].name);
        let left = without(children, name);
        let whole = walk(path, work, children, entries, i, has_tmpfs, io);
        let run = visited(path, work, children, entries[i], has_tmpfs, io);
        let result = handled(run, has_tmpfs);
        assert(plain_entry(entries[i]));
        lemma_position(children, name);
        visited_stays_confined(places, path, work, children, entries[i], has_tmpfs, io);
        lemma_handled(places, io, run, has_tmpfs);
        lemma_walk_step(path, work, children, entries, i, has_tmpfs, io);
        lemma_walk_on(path, work, left, entries, i + 1, has_tmpfs, run);
        lemma_without_ready(places, children, name, has_tmpfs);
        assert(result.out is Done);
        assert(whole == walk(path, work, left, entries, i + 1, has_tmpfs, run.io));
        lemma_replies_stay(io, result, limits, |r: ReplyView| plain_reply(r));
        walk_stays_confined(places, path, work, left, entries, i + 1, has_tmpfs, run.io);
        lemma_proceeds_goes_on(run.io, whole, limits);
        assert(distinct(left)) by {
            match position(children, name) {
                Some(p) => {
                    assert forall|a: int, c: int| 0 <= a < c < left.len() implies (
                    #[trigger] left[a]).name != (#[trigger] left[c]).name by {
                        let a2 = if a < p { a } else { a + 1 };
                        let c2 = if c < p { c } else { c + 1 };
                        assert(children[a2].name != children[c2].name);
                    }
                },
                None => {},
            }
        }
        walking_attempts_all(places, path, work, left, entries, i + 1, has_tmpfs, run.io);
        lemma_follows_itself(io);
        lemma_follows_itself(whole.io);
        lemma_proceeds_goes_on(io, result, limits);
        assert forall|k: int|
            0 <= k < children.len() && !(#[trigger] children[k]).skip && has_entry(
                children[k],
                entries,
                i,
            ) implies attempted(path, work, children[k], has_tmpfs, io, whole.io) by {
            let child = children[k];
            if child.name == name {
                let p = position(children, name)->0;
                assert(p == k) by {
                    if p < k {
                        assert(children[p].name != children[k].name);
                    }
                }
                assert(run.io == mounted(path, work, child, has_tmpfs, io).io) by {
                    reveal(visited);
                    reveal(mounted);
                }
                assert(goes_on(mounted(path, work, child, has_tmpfs, io).io, whole.io));
            } else {
                let j = choose|j: int|
                    i <= j < entries.len() && lossy_text((#[trigger] entries[j]).name)
                        == child.name;
                let m = match position(children, name) {
                    Some(p) => if k < p {
                        k
                    } else {
                        k - 1
                    },
                    None => k,
                };
                assert(left[m] == child);
                assert(j != i);
                assert(lossy_text(entries[j].name) == left[m].name);
                assert(has_entry(left[m], entries, i + 1));
                lemma_attempted_between(
                    path,
                    work,
                    child,
                    has_tmpfs,
                    io,
                    run.io,
                    whole.io,
                    whole.io,
                );
            }
        }
    }
}

/// Mounting a directory to the end goes through all its children, but for those that are to be left
/// out: those that the device has an entry for when its entries are dealt with, and the others
/// after that.
pub proof fn no_child_is_forgotten(
    places: Places,
    path: Text,
    work: Text,
    node: NodeView,
    has_tmpfs: bool,
    prepared: Run<()>,
)
    requires
        ready(places, node, has_tmpfs),
        within(places.device, path),
        within(places.work, work),
        plain_replies(prepared.io),
        dir_prepared(path, work, node, false, has_tmpfs, prepared).out is Done,
    ensures
        forall|k: int|
            0 <= k < node.children.len() && !(#[trigger] node.children[k]).skip ==> attempted(
                path,
                work,
                node.children[k],
                has_tmpfs,
                prepared.io,
                dir_prepared(path, work, node, false, has_tmpfs, prepared).io,
            ),
{
    let limits = confined(places);
    let whole = dir_prepared(path, work, node, false, has_tmpfs, prepared);
    let children = node.children;
    let request = Request::Exists(path);
    let look = ask(prepared.io, request);
    lemma_plain_ask(prepared.io, request);
    assert(whole == dir_looked_at(path, work, node, false, has_tmpfs, look));
    assert forall|i: int| 0 <= i < children.len() implies ready(
        places,
        #[trigger] children[i],
        has_tmpfs,
    ) by {
        assert(sound(node.children[i]));
    }
    let reply = look.out->Done_0;
    if flag_of(reply) && !node.replace {
        let list = Request::ListDir(path);
        let listed = ask(look.io, list);
        lemma_plain_ask(look.io, list);
        assert(whole == dir_listed(path, work, node, false, has_tmpfs, listed));
        let listing = listed.out->Done_0;
        lemma_plain_listing(listing);
        let entries = listing_of(listing)->Ok_0;
        let walked = walk(path, work, children, entries, 0, has_tmpfs, listed.io);
        let left = leftover(children, entries, 0);
        assert(whole == dir_walked(
            path,
            work,
            false,
            false,
            has_tmpfs,
            leaving(walked, left),
        )) by {
            reveal(walk);
        }
        assert(walked.out is Done);
        walk_stays_confined(places, path, work, children, entries, 0, has_tmpfs, listed.io);
        lemma_replies_stay(listed.io, walked, limits, |r: ReplyView| plain_reply(r));
        walking_attempts_all(places, path, work, children, entries, 0, has_tmpfs, listed.io);
        lemma_leftover_ready(places, children, entries, 0, has_tmpfs);
        lemma_left_is_filled(places, path, work, left, has_tmpfs, walked.io);
        lemma_asked_follows(prepared.io, request);
        lemma_asked_follows(look.io, list);
        lemma_follows(prepared.io, look.io, listed.io);
        lemma_proceeds_goes_on(listed.io, walked, limits);
        lemma_follows(prepared.io, listed.io, walked.io);
        lemma_follows_itself(whole.io);
        assert forall|k: int|
            0 <= k < children.len() && !(#[trigger] children[k]).skip implies attempted(
            path,
            work,
            children[k],
            has_tmpfs,
            prepared.io,
            whole.io,
        ) by {
            let child = children[k];
            if has_entry(child, entries, 0) {
                lemma_attempted_between(
                    path,
                    work,
                    child,
                    has_tmpfs,
                    prepared.io,
                    listed.io,
                    walked.io,
                    whole.io,
                );
            } else {
                lemma_left_over(children, entries, 0, k);
                let m = choose|m: int| 0 <= m < left.len() && left[m] == child;
                assert(!left[m].skip);
                lemma_attempted_between(
                    path,
                    work,
                    child,
                    has_tmpfs,
                    prepared.io,
                    walked.io,
                    whole.io,
                    whole.io,
                );
            }
        }
    } else {
        let start: Run<Seq<NodeView>> = done(look.io, children);
        assert(whole == dir_walked(path, work, false, false, has_tmpfs, start));
        lemma_left_is_filled(places, path, work, children, has_tmpfs, look.io);
        lemma_asked_follows(prepared.io, request);
        lemma_follows_itself(whole.io);
        assert forall|k: int|
            0 <= k < children.len() && !(#[trigger] children[k]).skip implies attempted(
            path,
            work,
            children[k],
            has_tmpfs,
            prepared.io,
            whole.io,
        ) by {
            lemma_attempted_between(
                path,
                work,
                children[k],
                has_tmpfs,
                prepared.io,
                look.io,
                whole.io,
                whole.io,
            );
        }
    }
}

/// An answered question goes on from what was before.
proof fn lemma_asked_follows(io: Io, request: Request<Text>)
    requires
        ask(io, request).out is Done,
    ensures
        follows(io, ask(io, request).io),
{
    let run = ask(io, request);
    assert(run.io.asked.take(io.asked.len() as int) =~= io.asked);
    assert(run.io.rest =~= io.rest.skip(1));
}

/// The children that are left are all gone through.
proof fn lemma_left_is_filled(
    places: Places,
    path: Text,
    work: Text,
    left: Seq<NodeView>,
    has_tmpfs: bool,
    io: Io,
)
    requires
        all_ready(places, left, has_tmpfs),
        within(places.device, path),
        within(places.work, work),
        plain_replies(io),
        dir_walked(path, work, false, false, has_tmpfs, done(io, left)).out is Done,
    ensures
        ({
            let whole = dir_walked(path, work, false, false, has_tmpfs, done(io, left));
            &&& goes_on(io, whole.io)
            &&& forall|i: int|
                0 <= i < left.len() && !(#[trigger] left[i]).skip ==> attempted(
                    path,
                    work,
                    left[i],
                    has_tmpfs,
                    io,
                    whole.io,
                )
        }),
{
    let whole = dir_walked(path, work, false, false, has_tmpfs, done(io, left));
    let filled = fill(path, work, left, has_tmpfs, io);
    assert(whole == dir_filled(path, work, false, filled)) by {
        reveal(fill);
    }
    assert(filled.out is Done);
    assert(whole.io == filled.io);
    fill_stays_confined(places, path, work, left, has_tmpfs, io);
    lemma_proceeds_goes_on(io, filled, confined(places));
    filling_attempts_all(places, path, work, left, has_tmpfs, io);
}

/// Where a directory is not built anew, each file of a module that has been gone through was asked
/// to be bound over the device's file of its name.
pub proof fn attempted_files_are_bound(
    path: Text,
    work: Text,
    child: NodeView,
    earlier: Io,
    later: Io,
)
    requires
        child.file_type == NodeFileType::RegularFile,
        child.origin is Some,
        attempted(path, work, child, false, earlier, later),
    ensures
        later.asked.contains(
            Request::BindMount { source: child.origin->0, target: joined(path, child.name) },
        ),
{
    reveal(mounted);
    let start = choose|start: Io|
        follows(earlier, start) && goes_on(
            (#[trigger] mounted(path, work, child, false, start)).io,
            later,
        );
    let run = mounted(path, work, child, false, start);
    let target = joined(path, child.name);
    let steps = file_steps(target, joined(work, child.name), child.origin, false);
    let bind = Request::BindMount { source: child.origin->0, target };
    let asked = ask(start, bind);
    assert(run == perform(steps, start));
    assert(steps.drop_first() =~= Seq::empty());
    match asked.out {
        Outcome::Done(reply) => {
            assert(run == perform_reply(Purpose::Success, Seq::empty(), reply, asked.io));
            assert(Seq::<Step<Text>>::empty() + Seq::empty() =~= Seq::empty());
        },
        _ => {},
    }
    assert(run.io.asked == start.asked.push(bind));
    let n = start.asked.len() as int;
    assert(later.asked[n] == later.asked.take(n + 1)[n]);
    assert(later.asked[n] == bind);
}

} // verus!
