//! Overlays that are mounted already are not mounted again.

use vstd::prelude::*;
#[allow(unused_imports)]
use vstd::string::StringSliceAdditionalSpecFns;

use crate::laws::conversation::{
    lemma_end, lemma_then, lemma_weaken, no_limits, proceeds, Limits,
};
use crate::laws::finding::{lemma_truthful_ask, lemma_truthful_parts, truthful, World};
use crate::laws::overlays::lemma_simple_steps;
use crate::laws::reading::{
    is_query, lemma_asked, module_queries, partitions_found_only_reads, queries,
};
use crate::overlay::{
    knows_overlay, mounted_marker, overlay_marked, overlay_steps, overlay_target, overlays_found,
    overlays_from, overlays_known, overlays_listed, overlays_mounted, overlays_ready,
    partitions_found, PartitionView,
};
use crate::protocol::{ask, done_of, flag_of, Error, Io, Outcome, Request, Run, Text};
use crate::rules::{device_dir, RulesView};
use crate::script::{must, perform, perform_reply, Purpose, Step};

verus! {

/// All partitions from the one at `i` on have the marker of an overlay.
pub open spec fn all_marked(world: World, partitions: Seq<PartitionView>, i: int) -> bool {
    forall|k: int|
        i <= k < partitions.len() ==> flag_of(
            world(Request::Exists(mounted_marker((#[trigger] partitions[k]).name))),
        )
}

/// How a partition is dealt with, whatever the host replies.
pub proof fn lemma_from_proceeds(work_base: Text, partitions: Seq<PartitionView>, i: int, io: Io)
    requires
        0 <= i,
    ensures
        proceeds(io, overlays_from(work_base, partitions, i, io), no_limits()),
        i < partitions.len() ==> {
            let whole = overlays_from(work_base, partitions, i, io);
            let first = ask(io, Request::Exists(device_dir(partitions[i].name)));
            let second = ask(first.io, Request::Exists(mounted_marker(partitions[i].name)));
            &&& first.out is Done ==> proceeds(first.io, whole, no_limits())
            &&& first.out is Done && flag_of(io.rest[0]) && second.out is Done ==> proceeds(
                second.io,
                whole,
                no_limits(),
            )
        },
    decreases partitions.len() - i,
{
    reveal(overlays_from);
    let q = no_limits();
    if i >= partitions.len() {
        lemma_end(io, Outcome::Done(()), q);
    } else {
        let partition = partitions[i];
        let whole = overlays_from(work_base, partitions, i, io);
        let target = Request::Exists(device_dir(partition.name));
        let first = ask(io, target);
        match first.out {
            Outcome::Done(reply) => {
                assert(whole == overlay_target(work_base, partitions, i, reply, first.io));
                if flag_of(reply) {
                    let marker = Request::Exists(mounted_marker(partition.name));
                    let second = ask(first.io, marker);
                    match second.out {
                        Outcome::Done(marked) => {
                            assert(whole == overlay_marked(
                                work_base,
                                partitions,
                                i,
                                marked,
                                second.io,
                            ));
                            if flag_of(marked) {
                                lemma_from_proceeds(work_base, partitions, i + 1, second.io);
                            } else {
                                let steps = overlay_steps(work_base, partition);
                                let mounting = perform(steps, second.io);
                                assert(whole == overlays_ready(
                                    work_base,
                                    partitions,
                                    i + 1,
                                    mounting,
                                ));
                                lemma_simple_steps(steps, second.io, q);
                                lemma_from_proceeds(work_base, partitions, i + 1, mounting.io);
                                lemma_then(second.io, mounting, whole, q);
                            }
                        },
                        _ => {},
                    }
                    lemma_asked(first.io, marker, whole, q);
                } else {
                    lemma_from_proceeds(work_base, partitions, i + 1, first.io);
                }
            },
            _ => {},
        }
        lemma_asked(io, target, whole, q);
    }
}

/// Partitions that all have the marker of an overlay are left alone: only questions are asked, and
/// nothing fails.
pub proof fn mounted_partitions_are_left_alone(
    world: World,
    work_base: Text,
    partitions: Seq<PartitionView>,
    i: int,
    io: Io,
)
    requires
        0 <= i,
        all_marked(world, partitions, i),
        truthful(world, io, overlays_from(work_base, partitions, i, io)),
    ensures
        proceeds(io, overlays_from(work_base, partitions, i, io), queries()),
        !(overlays_from(work_base, partitions, i, io).out is Fail),
    decreases partitions.len() - i,
{
    reveal(overlays_from);
    let q = no_limits();
    let whole = overlays_from(work_base, partitions, i, io);
    lemma_from_proceeds(work_base, partitions, i, io);
    if i >= partitions.len() {
        lemma_end(io, Outcome::Done(()), queries());
    } else {
        let name = partitions[i].name;
        let target = Request::Exists(device_dir(name));
        let first = ask(io, target);
        match first.out {
            Outcome::Done(reply) => {
                assert(whole == overlay_target(work_base, partitions, i, reply, first.io));
                lemma_truthful_ask(world, io, target, whole, q);
                if flag_of(reply) {
                    let marker = Request::Exists(mounted_marker(name));
                    let second = ask(first.io, marker);
                    match second.out {
                        Outcome::Done(marked) => {
                            lemma_truthful_ask(world, first.io, marker, whole, q);
                            assert(flag_of(world(Request::Exists(
                                mounted_marker(partitions[i].name),
                            ))));
                            assert(whole == overlay_marked(
                                work_base,
                                partitions,
                                i,
                                marked,
                                second.io,
                            ));
                            mounted_partitions_are_left_alone(
                                world,
                                work_base,
                                partitions,
                                i + 1,
                                second.io,
                            );
                        },
                        _ => {},
                    }
                    lemma_asked(first.io, marker, whole, queries());
                } else {
                    mounted_partitions_are_left_alone(
                        world,
                        work_base,
                        partitions,
                        i + 1,
                        first.io,
                    );
                }
            },
            _ => {},
        }
        lemma_asked(io, target, whole, queries());
    }
}

/// Nothing is changed, but for the directory of all overlays, which is made if it is missing.
pub open spec fn preparing_only(work_base: Text) -> Limits {
    Limits {
        allowed: |r: Request<Text>| is_query(r) || r == Request::EnsureDir(work_base),
        excused: |e: Error<Text>| true,
    }
}

/// All partitions that were found have the marker of an overlay.
pub open spec fn found_marked(world: World, found: Run<Option<Seq<PartitionView>>>) -> bool {
    found.out matches Outcome::Done(Some(partitions)) ==> all_marked(world, partitions, 0)
}

/// The conversation when it is known whether the kernel knows overlays.
pub open spec fn kernel_asked(io: Io) -> Io {
    let known = ask(io, Request::Exists("/proc/filesystems".spec_bytes()));
    ask(known.io, Request::ReadText("/proc/filesystems".spec_bytes())).io
}

/// Mounting overlays for what modules have, where all of them are mounted already.
proof fn lemma_found_again(world: World, rules: RulesView, work_base: Text, io: Io)
    requires
        found_marked(world, partitions_found(rules, io)),
    ensures
        ({
            let found = partitions_found(rules, io);
            let whole = overlays_found(work_base, found);
            &&& proceeds(io, whole, no_limits())
            &&& truthful(world, io, whole) ==> {
                &&& proceeds(io, whole, preparing_only(work_base))
                &&& done_of(world(Request::EnsureDir(work_base))) is Ok && !(found.out is Fail)
                    ==> !(whole.out is Fail)
            }
        }),
{
    reveal(overlays_from);
    let q = no_limits();
    let few = preparing_only(work_base);
    let found = partitions_found(rules, io);
    let whole = overlays_found(work_base, found);
    partitions_found_only_reads(rules, io);
    lemma_weaken(io, found, module_queries(), q);
    lemma_weaken(io, found, module_queries(), few);
    match found.out {
        Outcome::Done(Some(partitions)) => {
            let ensure = Request::EnsureDir(work_base);
            let steps = seq![must(ensure)];
            let run = ask(found.io, ensure);
            let prepared = perform(steps, found.io);
            assert(whole == overlays_ready(work_base, partitions, 0, prepared));
            lemma_simple_steps(steps, found.io, q);
            lemma_simple_steps(steps, found.io, few);
            lemma_from_proceeds(work_base, partitions, 0, prepared.io);
            lemma_then(found.io, prepared, whole, q);
            if truthful(world, io, whole) {
                lemma_truthful_parts(world, io, found, whole, q);
                match run.out {
                    Outcome::Done(reply) => {
                        let none = steps.drop_first();
                        assert(none =~= Seq::empty());
                        assert(prepared == perform_reply(Purpose::Success, none, reply, run.io));
                        assert(Seq::<Step<Text>>::empty() + none =~= Seq::empty());
                        if done_of(reply) is Err {
                            lemma_end(run.io, whole.out, q);
                        }
                        lemma_truthful_ask(world, found.io, ensure, whole, q);
                    },
                    _ => {},
                }
                if prepared.out is Done {
                    lemma_truthful_parts(world, found.io, prepared, whole, q);
                    mounted_partitions_are_left_alone(
                        world,
                        work_base,
                        partitions,
                        0,
                        prepared.io,
                    );
                    lemma_weaken(prepared.io, whole, queries(), few);
                }
                lemma_then(found.io, prepared, whole, few);
            }
        },
        Outcome::Done(None) => {
            lemma_end(found.io, Outcome::Done(()), q);
            lemma_end(found.io, Outcome::Done(()), few);
        },
        _ => {},
    }
    lemma_then(io, found, whole, q);
    if truthful(world, io, whole) {
        lemma_then(io, found, whole, few);
    }
}

/// Mounting overlays a second time, with the markers of all of them there, mounts none: besides
/// questions there is only the request for the directory of all overlays. It succeeds if the kernel
/// knows overlays, the modules can be gone through and that directory can be had.
pub proof fn overlays_are_not_mounted_again(
    world: World,
    rules: RulesView,
    work_base: Text,
    io: Io,
)
    requires
        found_marked(world, partitions_found(rules, kernel_asked(io))),
        truthful(world, io, overlays_mounted(rules, work_base, io)),
    ensures
        proceeds(io, overlays_mounted(rules, work_base, io), preparing_only(work_base)),
        ({
            &&& flag_of(world(Request::Exists("/proc/filesystems".spec_bytes())))
            &&& knows_overlay(world(Request::ReadText("/proc/filesystems".spec_bytes())))
            &&& done_of(world(Request::EnsureDir(work_base))) is Ok
            &&& !(partitions_found(rules, kernel_asked(io)).out is Fail)
        }) ==> !(overlays_mounted(rules, work_base, io).out is Fail),
{
    let q = no_limits();
    let few = preparing_only(work_base);
    let whole = overlays_mounted(rules, work_base, io);
    let known = Request::Exists("/proc/filesystems".spec_bytes());
    let run = ask(io, known);
    match run.out {
        Outcome::Done(reply) => {
            assert(whole == overlays_listed(rules, work_base, reply, run.io));
            if flag_of(reply) {
                let read = Request::ReadText("/proc/filesystems".spec_bytes());
                let text = ask(run.io, read);
                match text.out {
                    Outcome::Done(reply) => {
                        assert(whole == overlays_known(rules, work_base, reply, text.io));
                        lemma_found_again(world, rules, work_base, text.io);
                        if !knows_overlay(reply) {
                            lemma_end(text.io, Outcome::<()>::Fail(Error::NoOverlay), q);
                            lemma_end(text.io, Outcome::<()>::Fail(Error::NoOverlay), few);
                        }
                        lemma_asked(run.io, read, whole, q);
                        lemma_truthful_ask(world, io, known, whole, q);
                        lemma_truthful_ask(world, run.io, read, whole, q);
                    },
                    _ => {},
                }
                lemma_asked(run.io, read, whole, few);
            } else {
                lemma_end(run.io, Outcome::<()>::Fail(Error::NoOverlay), q);
                lemma_end(run.io, Outcome::<()>::Fail(Error::NoOverlay), few);
                lemma_truthful_ask(world, io, known, whole, q);
            }
        },
        _ => {},
    }
    lemma_asked(io, known, whole, few);
}

} // verus!
