//! Taking overlays back, from beginning to end.

use vstd::prelude::*;
#[allow(unused_imports)]
use vstd::string::StringSliceAdditionalSpecFns;
use vstd::utf8::valid_utf8;

use crate::bytes::joined;
use crate::laws::conversation::{lemma_end, lemma_weaken, no_limits, proceeds};
use crate::laws::copying::lemma_step_taken;
use crate::laws::device::says_yes;
use crate::laws::finding::{lemma_truthful_ask, truthful, World};
use crate::laws::overlays::{overlays_are_taken_back, unmount_limits};
use crate::laws::reading::lemma_asked;
use crate::overlay::{
    leftovers_listed, leftovers_looked_at, leftovers_unmounted, overlays_unmounted, unmount_done,
    unmount_from, unmount_listed, unmount_looked_at, unmount_marked,
};
use crate::protocol::{ask, readable, still_to_come, Entry, FileKind, Io, ReplyView, Request, Text};
use crate::script::{attempt, Purpose, Step};

verus! {

/// An entry of the directory of all overlays is that of a partition: a directory whose name is
/// text.
pub open spec fn partition_dir(entry: Entry<Text>) -> bool {
    &&& entry.kind == Ok::<FileKind, u64>(FileKind::Dir)
    &&& valid_utf8(entry.name)
}

/// An entry is that of a partition with the marker of an overlay.
pub open spec fn has_marker(world: World, entry: Entry<Text>) -> bool {
    let target = joined("/".spec_bytes(), entry.name);
    &&& partition_dir(entry)
    &&& says_yes(world, Request::Exists(joined(target, ".overlayfs_mounted".spec_bytes())))
}

/// The requests that are made for an entry of the directory of all overlays. If it is that of a
/// partition, its marker is looked for. If that is there, the partition is unmounted, and if that
/// succeeds the marker is removed.
pub open spec fn return_requests(world: World, entry: Entry<Text>) -> Seq<Request<Text>> {
    let target = joined("/".spec_bytes(), entry.name);
    let marker = joined(target, ".overlayfs_mounted".spec_bytes());
    if !partition_dir(entry) {
        Seq::empty()
    } else if !says_yes(world, Request::Exists(marker)) {
        seq![Request::Exists(marker)]
    } else if world(Request::Unmount(target)) == ReplyView::Done {
        seq![Request::Exists(marker), Request::Unmount(target), Request::RemoveFile(marker)]
    } else {
        seq![Request::Exists(marker), Request::Unmount(target)]
    }
}

/// The requests that are made for the entries from `i` on, in their order.
pub open spec fn returns_requests(
    world: World,
    entries: Seq<Entry<Text>>,
    i: int,
) -> Seq<Request<Text>>
    decreases entries.len() - i,
{
    if i < 0 || i >= entries.len() {
        Seq::empty()
    } else {
        return_requests(world, entries[i]) + returns_requests(world, entries, i + 1)
    }
}

/// One of the entries from `i` on is that of a partition with the marker of an overlay.
pub open spec fn any_marked(world: World, entries: Seq<Entry<Text>>, i: int) -> bool {
    exists|j: int| i <= j < entries.len() && has_marker(world, #[trigger] entries[j])
}

/// All requests of taking overlays back: those for the entries, and at the end the one that removes
/// the directory of all overlays, if that is to be done in any case or an overlay was found.
pub open spec fn all_returns(
    world: World,
    work_base: Text,
    entries: Seq<Entry<Text>>,
    i: int,
    clear: bool,
) -> Seq<Request<Text>> {
    returns_requests(world, entries, i) + if clear || any_marked(world, entries, i) {
        seq![Request::RemoveTree(work_base)]
    } else {
        Seq::empty()
    }
}

/// All partitions that have the marker of an overlay are unmounted one after the other, and whether
/// that succeeds or not the others are gone on with. Nothing fails.
pub proof fn overlays_are_taken_back_in_turn(
    world: World,
    work_base: Text,
    entries: Seq<Entry<Text>>,
    i: int,
    clear: bool,
    io: Io,
)
    requires
        0 <= i <= entries.len(),
        truthful(world, io, unmount_from(work_base, entries, i, clear, io)),
    ensures
        ({
            let whole = unmount_from(work_base, entries, i, clear, io);
            &&& !(whole.out is Fail)
            &&& whole.out is Done ==> whole.io.asked == io.asked + all_returns(
                world,
                work_base,
                entries,
                i,
                clear,
            )
        }),
    decreases still_to_come(entries, i),
{
    reveal(unmount_from);
    let q = unmount_limits(work_base, entries);
    let whole = unmount_from(work_base, entries, i, clear, io);
    let wanted = all_returns(world, work_base, entries, i, clear);
    if i >= entries.len() {
        assert(!any_marked(world, entries, i));
        if clear {
            let none = Seq::<Step<Text>>::empty();
            let remove = Request::RemoveTree(work_base);
            let steps = seq![attempt(remove)];
            assert(steps =~= steps + none);
            lemma_step_taken(world, remove, Purpose::Attempt, none, io);
            if io.rest.len() > 0 {
                assert(none + none =~= none);
            }
            if whole.out is Done {
                assert(whole.io.asked =~= io.asked + wanted);
            }
        } else {
            assert(whole.io.asked =~= io.asked + wanted);
        }
    } else {
        let entry = entries[i];
        let target = joined("/".spec_bytes(), entry.name);
        let marker = joined(target, ".overlayfs_mounted".spec_bytes());
        let requests = return_requests(world, entry);
        lemma_any_marked(world, entries, i);
        if partition_dir(entry) {
            let query = Request::Exists(marker);
            let run = ask(io, query);
            if run.out is Done {
                let reply = io.rest[0];
                assert(whole == unmount_marked(work_base, entries, i, clear, reply, run.io));
                if reply == ReplyView::Flag(true) {
                    let detach = Request::Unmount(target);
                    let gone = ask(run.io, detach);
                    if gone.out is Done {
                        let result = run.io.rest[0];
                        assert(whole == unmount_done(work_base, entries, i, result, gone.io));
                        let remove = Request::RemoveFile(marker);
                        let removed = ask(gone.io, remove);
                        if result == ReplyView::Done {
                            if removed.out is Done {
                                overlays_are_taken_back(
                                    work_base,
                                    entries,
                                    i + 1,
                                    true,
                                    removed.io,
                                );
                            }
                            lemma_asked(gone.io, remove, whole, q);
                        } else {
                            overlays_are_taken_back(work_base, entries, i + 1, true, gone.io);
                        }
                    }
                    lemma_asked(run.io, detach, whole, q);
                    lemma_truthful_ask(world, io, query, whole, q);
                    if gone.out is Done {
                        lemma_truthful_ask(world, run.io, detach, whole, q);
                        let result = run.io.rest[0];
                        let remove = Request::RemoveFile(marker);
                        let removed = ask(gone.io, remove);
                        let next = if result == ReplyView::Done {
                            removed.io
                        } else {
                            gone.io
                        };
                        if result != ReplyView::Done || removed.out is Done {
                            if result == ReplyView::Done {
                                lemma_truthful_ask(world, gone.io, remove, whole, q);
                            }
                            assert(whole == unmount_from(work_base, entries, i + 1, true, next));
                            overlays_are_taken_back_in_turn(
                                world,
                                work_base,
                                entries,
                                i + 1,
                                true,
                                next,
                            );
                            if whole.out is Done {
                                assert(whole.io.asked =~= io.asked + wanted);
                            }
                        }
                    }
                } else {
                    overlays_are_taken_back(work_base, entries, i + 1, clear, run.io);
                    lemma_truthful_ask(world, io, query, whole, q);
                    overlays_are_taken_back_in_turn(
                        world,
                        work_base,
                        entries,
                        i + 1,
                        clear,
                        run.io,
                    );
                    if whole.out is Done {
                        assert(whole.io.asked =~= io.asked + wanted);
                    }
                }
            }
        } else {
            overlays_are_taken_back_in_turn(world, work_base, entries, i + 1, clear, io);
            assert(requests =~= Seq::empty());
            if whole.out is Done {
                assert(whole.io.asked =~= io.asked + wanted);
            }
        }
    }
}

/// A marked entry is this one or a later one.
proof fn lemma_any_marked(world: World, entries: Seq<Entry<Text>>, i: int)
    requires
        0 <= i < entries.len(),
    ensures
        any_marked(world, entries, i) == (has_marker(world, entries[i]) || any_marked(
            world,
            entries,
            i + 1,
        )),
{
    if any_marked(world, entries, i) {
        let j = choose|j: int| i <= j < entries.len() && has_marker(world, #[trigger] entries[j]);
        if j > i {
            assert(has_marker(world, entries[j]));
        }
    }
    if any_marked(world, entries, i + 1) {
        let j = choose|j: int|
            i + 1 <= j < entries.len() && has_marker(world, #[trigger] entries[j]);
        assert(has_marker(world, entries[j]));
    }
}

/// Where modules are mounted by overlays, unmounting looks for the directory of all overlays. If it
/// is there and can be listed, the overlay of every partition in it that has a marker is taken back
/// and the directory is removed. It fails only if it cannot be listed.
pub proof fn unmounting_takes_all_back(world: World, work_base: Text, io: Io)
    requires
        truthful(world, io, overlays_unmounted(work_base, io)),
    ensures
        ({
            let whole = overlays_unmounted(work_base, io);
            let look = Request::Exists(work_base);
            let list = Request::ListDir(work_base);
            &&& whole.out is Fail ==> says_yes(world, look) && !(world(list) is Listing)
            &&& whole.out is Done ==> if !says_yes(world, look) {
                whole.io.asked == io.asked.push(look)
            } else {
                &&& world(list) matches ReplyView::Listing(l)
                &&& whole.io.asked == io.asked.push(look).push(list) + all_returns(
                    world,
                    work_base,
                    readable(l),
                    0,
                    true,
                )
            }
        }),
{
    let whole = overlays_unmounted(work_base, io);
    let look = Request::Exists(work_base);
    let list = Request::ListDir(work_base);
    let first = ask(io, look);
    if first.out is Done {
        let reply = io.rest[0];
        assert(whole == unmount_looked_at(work_base, reply, first.io));
        if reply == ReplyView::Flag(true) {
            let second = ask(first.io, list);
            if second.out is Done {
                let told = first.io.rest[0];
                assert(whole == unmount_listed(work_base, told, second.io));
                lemma_listed_goes_on(work_base, told, second.io);
                lemma_asked(first.io, list, whole, no_limits());
                lemma_truthful_ask(world, io, look, whole, no_limits());
                lemma_truthful_ask(world, first.io, list, whole, no_limits());
                if let ReplyView::Listing(l) = told {
                    overlays_are_taken_back_in_turn(
                        world,
                        work_base,
                        readable(l),
                        0,
                        true,
                        second.io,
                    );
                }
            } else {
                lemma_asked(first.io, list, whole, no_limits());
                lemma_truthful_ask(world, io, look, whole, no_limits());
            }
        } else {
            assert(whole.io.asked[io.asked.len() as int] == look);
        }
    }
}

/// Where modules are mounted by bind mounts, unmounting looks for the directory of all overlays. If
/// it is there and can be listed, the overlay of every partition in it that has a marker is taken
/// back, and the directory is removed if there was one. Otherwise nothing is changed. It never
/// fails.
pub proof fn unmounting_takes_leftovers_back(world: World, work_base: Text, io: Io)
    requires
        truthful(world, io, leftovers_unmounted(work_base, io)),
    ensures
        ({
            let whole = leftovers_unmounted(work_base, io);
            let look = Request::Exists(work_base);
            let list = Request::ListDir(work_base);
            &&& !(whole.out is Fail)
            &&& whole.out is Done ==> if !says_yes(world, look) {
                whole.io.asked == io.asked.push(look)
            } else {
                match world(list) {
                    ReplyView::Listing(l) => whole.io.asked == io.asked.push(look).push(list)
                        + all_returns(world, work_base, readable(l), 0, false),
                    _ => whole.io.asked == io.asked.push(look).push(list),
                }
            }
        }),
{
    let whole = leftovers_unmounted(work_base, io);
    let look = Request::Exists(work_base);
    let list = Request::ListDir(work_base);
    let first = ask(io, look);
    if first.out is Done {
        let reply = io.rest[0];
        assert(whole == leftovers_looked_at(work_base, reply, first.io));
        if reply == ReplyView::Flag(true) {
            let second = ask(first.io, list);
            if second.out is Done {
                let told = first.io.rest[0];
                assert(whole == leftovers_listed(work_base, told, second.io));
                lemma_listed_goes_on(work_base, told, second.io);
                lemma_asked(first.io, list, whole, no_limits());
                lemma_truthful_ask(world, io, look, whole, no_limits());
                lemma_truthful_ask(world, first.io, list, whole, no_limits());
                if let ReplyView::Listing(l) = told {
                    overlays_are_taken_back_in_turn(
                        world,
                        work_base,
                        readable(l),
                        0,
                        false,
                        second.io,
                    );
                }
            } else {
                lemma_asked(first.io, list, whole, no_limits());
                lemma_truthful_ask(world, io, look, whole, no_limits());
            }
        } else {
            assert(whole.io.asked[io.asked.len() as int] == look);
        }
    }
}

/// Taking overlays back is in good order when the directory of all overlays has been listed.
proof fn lemma_listed_goes_on(work_base: Text, told: ReplyView, io: Io)
    ensures
        proceeds(io, unmount_listed(work_base, told, io), no_limits()),
        proceeds(io, leftovers_listed(work_base, told, io), no_limits()),
{
    if let ReplyView::Listing(l) = told {
        let entries = readable(l);
        let limits = unmount_limits(work_base, entries);
        overlays_are_taken_back(work_base, entries, 0, true, io);
        overlays_are_taken_back(work_base, entries, 0, false, io);
        lemma_weaken(
            io,
            unmount_from(work_base, entries, 0, true, io),
            limits,
            no_limits(),
        );
        lemma_weaken(
            io,
            unmount_from(work_base, entries, 0, false, io),
            limits,
            no_limits(),
        );
    } else {
        lemma_end(io, unmount_listed(work_base, told, io).out, no_limits());
        lemma_end(io, leftovers_listed(work_base, told, io).out, no_limits());
    }
}

} // verus!
