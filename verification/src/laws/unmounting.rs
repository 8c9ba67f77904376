//! Overlays are taken back in any mode, and nothing else is touched.

use vstd::prelude::*;

use crate::laws::conversation::{
    lemma_end, lemma_proceeds, lemma_then, lemma_weaken, no_limits, proceeds,
};
use crate::laws::finding::{lemma_truthful_ask, lemma_truthful_parts, truthful, World};
use crate::laws::overlays::{overlays_are_taken_back, unmount_limits};
use crate::laws::reading::{lemma_asked, mode_detected_only_reads, queries};
use crate::overlay::{
    leftovers_listed, leftovers_looked_at, leftovers_unmounted, mounted_marker, names_partition,
    overlays_unmounted, unmount_done, unmount_from, unmount_listed, unmount_looked_at,
    unmount_marked,
};
use crate::protocol::{
    ask, done_of, flag_of, listing_of, still_to_come, Entry, Error, Io, Outcome, Request, Run, Text,
};
use crate::rules::device_dir;
use crate::session::{
    mode_by_overlay, mode_detected, modules_unmounted, unmount_by_mode, ConfigView, MountMode,
};

verus! {

/// An entry of the directory for overlays belongs to a partition that has the marker of an overlay.
pub open spec fn marked_in(world: World, entry: Entry<Text>) -> bool {
    names_partition(entry) && flag_of(world(Request::Exists(mounted_marker(entry.name))))
}

/// A request was made between two points of a conversation.
pub open spec fn asked_since<T>(io: Io, run: Run<T>, request: Request<Text>) -> bool {
    exists|j: int|
        io.asked.len() <= j < run.io.asked.len() && #[trigger] run.io.asked[j] == request
}

/// What was asked for since a later point was asked for since an earlier one.
proof fn lemma_asked_since<T>(earlier: Io, later: Io, run: Run<T>, request: Request<Text>)
    requires
        earlier.asked.len() <= later.asked.len(),
        asked_since(later, run, request),
    ensures
        asked_since(earlier, run, request),
{
    let j = choose|j: int|
        later.asked.len() <= j < run.io.asked.len() && #[trigger] run.io.asked[j] == request;
    assert(earlier.asked.len() <= j);
}

/// All partitions from the entry at `i` on that have the marker of an overlay are unmounted.
spec fn all_unmounted(
    world: World,
    entries: Seq<Entry<Text>>,
    i: int,
    io: Io,
    run: Run<()>,
) -> bool {
    forall|j: int|
        i <= j < entries.len() && marked_in(world, #[trigger] entries[j]) ==> asked_since(
            io,
            run,
            Request::Unmount(device_dir(entries[j].name)),
        )
}

/// All partitions are unmounted from one entry on if they are from the next one on, and this one is
/// if it has a marker.
proof fn lemma_all_unmounted(
    world: World,
    entries: Seq<Entry<Text>>,
    i: int,
    io: Io,
    next: Io,
    run: Run<()>,
)
    requires
        0 <= i < entries.len(),
        io.asked.len() <= next.asked.len(),
        all_unmounted(world, entries, i + 1, next, run),
        marked_in(world, entries[i]) ==> asked_since(
            io,
            run,
            Request::Unmount(device_dir(entries[i].name)),
        ),
    ensures
        all_unmounted(world, entries, i, io, run),
{
    assert forall|j: int|
        i <= j < entries.len() && marked_in(world, #[trigger] entries[j]) implies asked_since(
        io,
        run,
        Request::Unmount(device_dir(entries[j].name)),
    ) by {
        if j > i {
            lemma_asked_since(io, next, run, Request::Unmount(device_dir(entries[j].name)));
        }
    }
}

/// Taking overlays back unmounts every partition that has the marker of one.
pub proof fn marked_partitions_are_unmounted(
    world: World,
    work_base: Text,
    entries: Seq<Entry<Text>>,
    i: int,
    clear: bool,
    io: Io,
)
    requires
        0 <= i,
        truthful(world, io, unmount_from(work_base, entries, i, clear, io)),
    ensures
        unmount_from(work_base, entries, i, clear, io).out is Done ==> forall|j: int|
            i <= j < entries.len() && marked_in(world, #[trigger] entries[j]) ==> asked_since(
                io,
                unmount_from(work_base, entries, i, clear, io),
                Request::Unmount(device_dir(entries[j].name)),
            ),
    decreases still_to_come(entries, i),
{
    reveal(unmount_from);
    let limits = unmount_limits(work_base, entries);
    let whole = unmount_from(work_base, entries, i, clear, io);
    overlays_are_taken_back(work_base, entries, i, clear, io);
    if i < entries.len() && whole.out is Done {
        if names_partition(entries[i]) {
            let name = entries[i].name;
            let query = Request::Exists(mounted_marker(name));
            let run = ask(io, query);
            let reply = io.rest[0];
            assert(whole == unmount_marked(work_base, entries, i, clear, reply, run.io));
            if flag_of(reply) {
                let detach = Request::Unmount(device_dir(name));
                let gone = ask(run.io, detach);
                let result = run.io.rest[0];
                assert(whole == unmount_done(work_base, entries, i, result, gone.io));
                let remove = Request::RemoveFile(mounted_marker(name));
                let removed = ask(gone.io, remove);
                let next = if done_of(result) is Ok {
                    removed.io
                } else {
                    gone.io
                };
                assert(whole == unmount_from(work_base, entries, i + 1, true, next));
                overlays_are_taken_back(work_base, entries, i + 1, true, next);
                if done_of(result) is Ok {
                    lemma_asked(gone.io, remove, whole, limits);
                }
                lemma_asked(run.io, detach, whole, limits);
                lemma_truthful_ask(world, io, query, whole, limits);
                lemma_truthful_ask(world, run.io, detach, whole, limits);
                if done_of(result) is Ok {
                    lemma_truthful_ask(world, gone.io, remove, whole, limits);
                }
                marked_partitions_are_unmounted(world, work_base, entries, i + 1, true, next);
                lemma_proceeds(gone.io, whole, limits);
                let n = run.io.asked.len() as int;
                assert(whole.io.asked[n] == whole.io.asked.take(n + 1)[n]);
                assert(whole.io.asked[n] == detach);
                assert(asked_since(io, whole, detach));
                lemma_all_unmounted(world, entries, i, io, next, whole);
            } else {
                overlays_are_taken_back(work_base, entries, i + 1, clear, run.io);
                lemma_truthful_ask(world, io, query, whole, limits);
                marked_partitions_are_unmounted(world, work_base, entries, i + 1, clear, run.io);
                lemma_all_unmounted(world, entries, i, io, run.io, whole);
            }
        } else {
            marked_partitions_are_unmounted(world, work_base, entries, i + 1, clear, io);
            lemma_all_unmounted(world, entries, i, io, io, whole);
        }
    }
}

/// Where no partition has the marker of an overlay, taking back those that are left changes
/// nothing.
pub proof fn unmarked_partitions_are_not_unmounted(
    world: World,
    work_base: Text,
    entries: Seq<Entry<Text>>,
    i: int,
    io: Io,
)
    requires
        0 <= i,
        forall|j: int| i <= j < entries.len() ==> !marked_in(world, #[trigger] entries[j]),
        truthful(world, io, unmount_from(work_base, entries, i, false, io)),
    ensures
        proceeds(io, unmount_from(work_base, entries, i, false, io), queries()),
        !(unmount_from(work_base, entries, i, false, io).out is Fail),
    decreases still_to_come(entries, i),
{
    reveal(unmount_from);
    let limits = unmount_limits(work_base, entries);
    let whole = unmount_from(work_base, entries, i, false, io);
    if i >= entries.len() {
        lemma_end(io, Outcome::Done(()), queries());
    } else if names_partition(entries[i]) {
        let query = Request::Exists(mounted_marker(entries[i].name));
        let run = ask(io, query);
        match run.out {
            Outcome::Done(reply) => {
                assert(whole == unmount_marked(work_base, entries, i, false, reply, run.io));
                lemma_marker_answered(world, work_base, entries, i, io);
                assert(!marked_in(world, entries[i]));
                assert(whole == unmount_from(work_base, entries, i + 1, false, run.io));
                overlays_are_taken_back(work_base, entries, i + 1, false, run.io);
                lemma_truthful_ask(world, io, query, whole, limits);
                unmarked_partitions_are_not_unmounted(
                    world,
                    work_base,
                    entries,
                    i + 1,
                    run.io,
                );
            },
            _ => {},
        }
        lemma_asked(io, query, whole, queries());
    } else {
        unmarked_partitions_are_not_unmounted(world, work_base, entries, i + 1, io);
    }
}

/// The question about a marker is answered truthfully.
proof fn lemma_marker_answered(
    world: World,
    work_base: Text,
    entries: Seq<Entry<Text>>,
    i: int,
    io: Io,
)
    requires
        0 <= i < entries.len(),
        names_partition(entries[i]),
        io.rest.len() > 0,
        truthful(world, io, unmount_from(work_base, entries, i, false, io)),
    ensures
        io.rest[0] == world(Request::Exists(mounted_marker(entries[i].name))),
{
    reveal(unmount_from);
    let limits = unmount_limits(work_base, entries);
    let whole = unmount_from(work_base, entries, i, false, io);
    let name = entries[i].name;
    let query = Request::Exists(mounted_marker(name));
    let run = ask(io, query);
    let reply = io.rest[0];
    overlays_are_taken_back(work_base, entries, i, false, io);
    lemma_proceeds(io, whole, limits);
    assert(whole == unmount_marked(work_base, entries, i, false, reply, run.io));
    let n = io.asked.len() as int;
    if flag_of(reply) {
        let detach = Request::Unmount(device_dir(name));
        let gone = ask(run.io, detach);
        match gone.out {
            Outcome::Done(result) => {
                assert(whole == unmount_done(work_base, entries, i, result, gone.io));
                let remove = Request::RemoveFile(mounted_marker(name));
                let removed = ask(gone.io, remove);
                overlays_are_taken_back(work_base, entries, i + 1, true, removed.io);
                overlays_are_taken_back(work_base, entries, i + 1, true, gone.io);
                if done_of(result) is Ok {
                    lemma_asked(gone.io, remove, whole, limits);
                }
            },
            _ => {},
        }
        lemma_asked(run.io, detach, whole, limits);
    } else {
        overlays_are_taken_back(work_base, entries, i + 1, false, run.io);
    }
    lemma_truthful_ask(world, io, query, whole, limits);
}

/// Takes overlays back, all of them or those that are left.
pub open spec fn taken_back(all: bool, work_base: Text, io: Io) -> Run<()> {
    if all {
        overlays_unmounted(work_base, io)
    } else {
        leftovers_unmounted(work_base, io)
    }
}

/// No partition with a directory among those of overlays has the marker of one.
pub open spec fn none_marked(world: World, work_base: Text) -> bool {
    flag_of(world(Request::Exists(work_base))) ==> (listing_of(
        world(Request::ListDir(work_base)),
    ) matches Ok(entries) ==> forall|j: int|
        0 <= j < entries.len() ==> !marked_in(world, #[trigger] entries[j]))
}

/// All partitions with a directory among those of overlays that have the marker of one were
/// unmounted.
pub open spec fn marked_unmounted(world: World, work_base: Text, io: Io, run: Run<()>) -> bool {
    flag_of(world(Request::Exists(work_base))) ==> (listing_of(
        world(Request::ListDir(work_base)),
    ) matches Ok(entries) ==> forall|j: int|
        0 <= j < entries.len() && marked_in(world, #[trigger] entries[j]) ==> asked_since(
            io,
            run,
            Request::Unmount(device_dir(entries[j].name)),
        ))
}

/// What taking overlays back comes to.
proof fn lemma_taken_back(world: World, all: bool, work_base: Text, io: Io)
    ensures
        proceeds(io, taken_back(all, work_base, io), no_limits()),
        !all ==> !(taken_back(all, work_base, io).out is Fail),
        truthful(world, io, taken_back(all, work_base, io)) ==> {
            let whole = taken_back(all, work_base, io);
            &&& whole.out is Done ==> marked_unmounted(world, work_base, io, whole)
            &&& !all && none_marked(world, work_base) ==> proceeds(io, whole, queries())
        },
{
    let q = no_limits();
    let whole = taken_back(all, work_base, io);
    let request = Request::Exists(work_base);
    let looked = ask(io, request);
    match looked.out {
        Outcome::Done(reply) => {
            assert(whole == if all {
                unmount_looked_at(work_base, reply, looked.io)
            } else {
                leftovers_looked_at(work_base, reply, looked.io)
            });
            let list = Request::ListDir(work_base);
            let listed = ask(looked.io, list);
            if !flag_of(reply) {
                lemma_end(looked.io, Outcome::Done(()), q);
                lemma_end(looked.io, Outcome::Done(()), queries());
                if truthful(world, io, whole) {
                    lemma_truthful_ask(world, io, request, whole, q);
                }
            } else {
                match listed.out {
                    Outcome::Done(listing) => {
                        assert(whole == if all {
                            unmount_listed(work_base, listing, listed.io)
                        } else {
                            leftovers_listed(work_base, listing, listed.io)
                        });
                        match listing_of(listing) {
                            Ok(entries) => {
                                let limits = unmount_limits(work_base, entries);
                                overlays_are_taken_back(work_base, entries, 0, all, listed.io);
                                lemma_weaken(listed.io, whole, limits, q);
                            },
                            Err(e) => {
                                lemma_end(listed.io, whole.out, q);
                                if !all {
                                    lemma_end(listed.io, whole.out, queries());
                                }
                            },
                        }
                        lemma_asked(looked.io, list, whole, q);
                        if truthful(world, io, whole) {
                            lemma_truthful_ask(world, io, request, whole, q);
                            lemma_truthful_ask(world, looked.io, list, whole, q);
                            match listing_of(listing) {
                                Ok(entries) => {
                                    lemma_entries_taken_back(
                                        world,
                                        all,
                                        work_base,
                                        entries,
                                        io,
                                        listed.io,
                                    );
                                },
                                Err(_) => {},
                            }
                        }
                        if proceeds(listed.io, whole, queries()) {
                            lemma_asked(looked.io, list, whole, queries());
                        }
                    },
                    _ => {
                        lemma_asked(looked.io, list, whole, q);
                        lemma_asked(looked.io, list, whole, queries());
                    },
                }
            }
        },
        _ => {},
    }
    lemma_asked(io, request, whole, q);
    if looked.out is Waiting || proceeds(looked.io, whole, queries()) {
        lemma_asked(io, request, whole, queries());
    }
}

/// What taking back overlays comes to when their directories are known.
proof fn lemma_entries_taken_back(
    world: World,
    all: bool,
    work_base: Text,
    entries: Seq<Entry<Text>>,
    before: Io,
    io: Io,
)
    requires
        before.asked.len() <= io.asked.len(),
        listing_of(world(Request::ListDir(work_base))) == Ok::<Seq<Entry<Text>>, Error<Text>>(
            entries,
        ),
        flag_of(world(Request::Exists(work_base))),
        truthful(world, io, unmount_from(work_base, entries, 0, all, io)),
    ensures
        ({
            let whole = unmount_from(work_base, entries, 0, all, io);
            &&& whole.out is Done ==> marked_unmounted(world, work_base, before, whole)
            &&& !all && none_marked(world, work_base) ==> proceeds(io, whole, queries())
        }),
{
    let whole = unmount_from(work_base, entries, 0, all, io);
    marked_partitions_are_unmounted(world, work_base, entries, 0, all, io);
    if whole.out is Done {
        assert forall|j: int|
            0 <= j < entries.len() && marked_in(world, #[trigger] entries[j]) implies asked_since(
            before,
            whole,
            Request::Unmount(device_dir(entries[j].name)),
        ) by {
            lemma_asked_since(before, io, whole, Request::Unmount(device_dir(entries[j].name)));
        }
    }
    if !all && none_marked(world, work_base) {
        let known = listing_of(world(Request::ListDir(work_base)))->Ok_0;
        assert forall|j: int| 0 <= j < entries.len() implies !marked_in(
            world,
            #[trigger] entries[j],
        ) by {
            assert(!marked_in(world, known[j]));
        }
        unmarked_partitions_are_not_unmounted(world, work_base, entries, 0, io);
    }
}

/// Unmounting takes back all overlays where the flags ask for overlays, and those that are left
/// otherwise.
pub proof fn overlays_are_unmounted_by_mode(config: ConfigView, io: Io)
    requires
        io.rest.len() >= 2,
    ensures
        ({
            let detected = mode_detected(config.overlay_flag, config.magic_flag, io);
            modules_unmounted(config, io) == taken_back(
                flag_of(io.rest[0]),
                config.overlay_work_dir,
                detected.io,
            )
        }),
{
}

/// The parts of unmounting, and what they come to.
proof fn lemma_unmounted(world: World, config: ConfigView, io: Io)
    requires
        truthful(world, io, modules_unmounted(config, io)),
    ensures
        ({
            let whole = modules_unmounted(config, io);
            let all = flag_of(world(Request::Exists(config.overlay_flag)));
            &&& whole.out is Done ==> marked_unmounted(world, config.overlay_work_dir, io, whole)
            &&& !all && none_marked(world, config.overlay_work_dir) ==> {
                &&& proceeds(io, whole, queries())
                &&& !(whole.out is Fail)
            }
        }),
{
    let q = no_limits();
    let whole = modules_unmounted(config, io);
    let work_base = config.overlay_work_dir;
    let detected = mode_detected(config.overlay_flag, config.magic_flag, io);
    let request = Request::Exists(config.overlay_flag);
    let first = ask(io, request);
    mode_detected_only_reads(config.overlay_flag, config.magic_flag, io);
    lemma_weaken(io, detected, queries(), q);
    assert(whole == unmount_by_mode(config, detected));
    match detected.out {
        Outcome::Done(mode) => {
            let all = mode == MountMode::OverlayFs;
            assert(detected == mode_by_overlay(config.magic_flag, io.rest[0], first.io));
            assert(all == flag_of(io.rest[0]));
            assert(whole == taken_back(all, work_base, detected.io));
            lemma_taken_back(world, all, work_base, detected.io);
            lemma_truthful_parts(world, io, detected, whole, q);
            lemma_proceeds(io, detected, q);
            assert(detected.io.asked[io.asked.len() as int] == request);
            assert(io.rest[0] == world(request));
            if whole.out is Done && flag_of(world(Request::Exists(work_base))) {
                match listing_of(world(Request::ListDir(work_base))) {
                    Ok(entries) => {
                        assert forall|j: int|
                            0 <= j < entries.len() && marked_in(
                                world,
                                #[trigger] entries[j],
                            ) implies asked_since(
                            io,
                            whole,
                            Request::Unmount(device_dir(entries[j].name)),
                        ) by {
                            lemma_asked_since(
                                io,
                                detected.io,
                                whole,
                                Request::Unmount(device_dir(entries[j].name)),
                            );
                        }
                    },
                    Err(_) => {},
                }
            }
            if proceeds(detected.io, whole, queries()) {
                lemma_then(io, detected, whole, queries());
            }
        },
        _ => {
            lemma_then(io, detected, whole, queries());
        },
    }
}

/// In any mode, unmounting unmounts every partition that has the marker of an overlay and a
/// directory among those of overlays.
pub proof fn marked_partitions_are_unmounted_in_any_mode(world: World, config: ConfigView, io: Io)
    requires
        truthful(world, io, modules_unmounted(config, io)),
    ensures
        modules_unmounted(config, io).out is Done ==> marked_unmounted(
            world,
            config.overlay_work_dir,
            io,
            modules_unmounted(config, io),
        ),
{
    lemma_unmounted(world, config, io);
}

/// Where modules are mounted by bind mounts and no overlay is left, unmounting asks questions only
/// and does not fail.
pub proof fn bind_mounts_are_left_alone(world: World, config: ConfigView, io: Io)
    requires
        truthful(world, io, modules_unmounted(config, io)),
        !flag_of(world(Request::Exists(config.overlay_flag))),
        none_marked(world, config.overlay_work_dir),
    ensures
        proceeds(io, modules_unmounted(config, io), queries()),
        modules_unmounted(config, io).out is Done || modules_unmounted(config, io).out is Waiting,
{
    lemma_unmounted(world, config, io);
}

} // verus!
