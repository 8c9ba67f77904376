//! Mounting overlays, from beginning to end.

use vstd::prelude::*;
#[allow(unused_imports)]
use vstd::string::StringSliceAdditionalSpecFns;

use crate::bytes::{joined, lossy_text};
use crate::laws::conversation::{lemma_then, lemma_weaken, no_limits};
use crate::laws::copying::{lemma_call_made, lemma_step_taken};
use crate::laws::device::says_yes;
use crate::laws::finding::{lemma_truthful_ask, lemma_truthful_parts, truthful, World};
use crate::laws::orderly::steps_are_orderly;
use crate::laws::reading::{module_queries, partitions_found_only_reads};
use crate::laws::remounting::lemma_from_proceeds;
use crate::overlay::{
    colon_joined, lower_dirs, overlay_marked, overlay_options, overlay_steps, overlay_target,
    overlays_found, overlays_from, overlays_ready, partitions_found, PartitionView,
};
use crate::protocol::{ask, done, Error, Io, Outcome, ReplyView, Request, Task, Text};
use crate::rules::RulesView;
use crate::script::{attempt, must, perform, task, Purpose, Step};

verus! {

/// A text stands before a list of texts, with a colon behind it.
proof fn lemma_joined_before(first: Text, list: Seq<Text>)
    requires
        list.len() > 0,
    ensures
        colon_joined(seq![first] + list) == first.push(58) + colon_joined(list),
    decreases list.len(),
{
    let all = seq![first] + list;
    assert(all.last() == list.last());
    assert(all.drop_last() =~= seq![first] + list.drop_last());
    if list.len() == 1 {
        assert(all.drop_last() =~= seq![first]);
        assert(colon_joined(all.drop_last()) == first);
    } else {
        lemma_joined_before(first, list.drop_last());
        assert(colon_joined(all) =~= first.push(58) + colon_joined(list));
    }
}

/// What stands in the options of an overlay before the directories that it is made of.
pub open spec fn options_start() -> Text {
    "lowerdir=".spec_bytes()
}

/// One more module puts its directory before all others in the options of an overlay, with a colon
/// behind it, and changes nothing else.
pub proof fn one_more_module_comes_first(
    work_base: Text,
    name: Text,
    sources: Seq<(Text, Text)>,
    source: (Text, Text),
)
    ensures
        ({
            let before = overlay_options(work_base, PartitionView { name, sources });
            let after = overlay_options(
                work_base,
                PartitionView { name, sources: sources.push(source) },
            );
            let n = options_start().len() as int;
            &&& before.take(n) == options_start()
            &&& after == options_start() + lossy_text(source.1) + seq![58u8] + before.skip(n)
        }),
{
    let few = PartitionView { name, sources };
    let many = PartitionView { name, sources: sources.push(source) };
    let before = overlay_options(work_base, few);
    let after = overlay_options(work_base, many);
    let start = options_start();
    let n = start.len() as int;
    let first = lossy_text(source.1);
    assert(lower_dirs(many) =~= seq![first] + lower_dirs(few));
    lemma_joined_before(first, lower_dirs(few));
    let rest = before.skip(n);
    assert(before.take(n) =~= start);
    assert(first.push(58) =~= first + seq![58u8]);
    assert(after =~= start + first + seq![58u8] + rest);
}

/// Without modules an overlay is made of the device's directory alone. Behind it come the two
/// directories of its own, in the directory of the partition's name among those of all overlays.
pub proof fn the_device_comes_last(work_base: Text, name: Text)
    ensures
        overlay_options(work_base, PartitionView { name, sources: Seq::empty() })
            == options_start() + lossy_text(joined("/".spec_bytes(), name))
            + ",upperdir=".spec_bytes() + lossy_text(
            joined(joined(work_base, name), "upper".spec_bytes()),
        ) + ",workdir=".spec_bytes() + lossy_text(
            joined(joined(work_base, name), "work".spec_bytes()),
        ),
{
    let partition = PartitionView { name, sources: Seq::empty() };
    let list = lower_dirs(partition);
    assert(list.len() == 1);
    assert(colon_joined(list) == lossy_text(joined("/".spec_bytes(), name)));
}

/// The host makes every directory and mounts every overlay.
pub open spec fn lends(world: World) -> bool {
    &&& forall|p: Text| #[trigger] world(Request::EnsureDir(p)) == ReplyView::Done
    &&& forall|target: Text, options: Text| #[trigger]
        world(Request::MountOverlay { target, options }) == ReplyView::Done
}

/// The requests that are made for a partition. It is passed over if the device does not have it, or
/// if it has the marker of an overlay. Otherwise the overlay's own directories are made, the
/// overlay is mounted over the partition, and the marker is set.
pub open spec fn partition_requests(
    world: World,
    work_base: Text,
    partition: PartitionView,
) -> Seq<Request<Text>> {
    let target = joined("/".spec_bytes(), partition.name);
    let marker = joined(target, ".overlayfs_mounted".spec_bytes());
    let own = joined(work_base, partition.name);
    if !says_yes(world, Request::Exists(target)) {
        seq![Request::Exists(target)]
    } else if says_yes(world, Request::Exists(marker)) {
        seq![Request::Exists(target), Request::Exists(marker)]
    } else {
        seq![
            Request::Exists(target),
            Request::Exists(marker),
            Request::EnsureDir(joined(own, "upper".spec_bytes())),
            Request::EnsureDir(joined(own, "work".spec_bytes())),
            Request::MountOverlay { target, options: overlay_options(work_base, partition) },
            Request::CreateFile(marker),
        ]
    }
}

/// The requests that are made for the partitions from `i` on, in their order.
pub open spec fn partitions_requests(
    world: World,
    work_base: Text,
    partitions: Seq<PartitionView>,
    i: int,
) -> Seq<Request<Text>>
    decreases partitions.len() - i,
{
    if i < 0 || i >= partitions.len() {
        Seq::empty()
    } else {
        partition_requests(world, work_base, partitions[i]) + partitions_requests(
            world,
            work_base,
            partitions,
            i + 1,
        )
    }
}

/// The options of no overlay hold a zero.
pub open spec fn no_zeros(work_base: Text, partitions: Seq<PartitionView>) -> bool {
    forall|k: int|
        0 <= k < partitions.len() ==> !overlay_options(
            work_base,
            #[trigger] partitions[k],
        ).contains(0)
}

/// How an overlay is mounted, where all calls succeed but perhaps the one that sets the marker.
proof fn lemma_overlay_made(world: World, work_base: Text, partition: PartitionView, io: Io)
    requires
        lends(world),
        !overlay_options(work_base, partition).contains(0),
        truthful(world, io, perform(overlay_steps(work_base, partition), io)),
    ensures
        ({
            let run = perform(overlay_steps(work_base, partition), io);
            let target = joined("/".spec_bytes(), partition.name);
            let marker = joined(target, ".overlayfs_mounted".spec_bytes());
            let own = joined(work_base, partition.name);
            ||| run.out is Waiting
            ||| run.out is Done && run.io.asked == io.asked + seq![
                Request::EnsureDir(joined(own, "upper".spec_bytes())),
                Request::EnsureDir(joined(own, "work".spec_bytes())),
                Request::MountOverlay { target, options: overlay_options(work_base, partition) },
                Request::CreateFile(marker),
            ]
        }),
{
    let none = Seq::<Step<Text>>::empty();
    let target = joined("/".spec_bytes(), partition.name);
    let own = joined(work_base, partition.name);
    let upper = Request::EnsureDir(joined(own, "upper".spec_bytes()));
    let work = Request::EnsureDir(joined(own, "work".spec_bytes()));
    let options = overlay_options(work_base, partition);
    let mount = Request::MountOverlay { target, options };
    let mark = Request::CreateFile(joined(target, ".overlayfs_mounted".spec_bytes()));
    let purpose = Task::MountOverlay { partition: partition.name };
    let steps = overlay_steps(work_base, partition);
    let run = perform(steps, io);
    let fourth = seq![attempt(mark)];
    let third = seq![task(purpose, mount)] + fourth;
    let second = seq![must(work)] + third;
    assert(steps =~= seq![must(upper)] + second);
    lemma_call_made(world, upper, Purpose::Success, second, io);
    if io.rest.len() > 0 {
        let one = ask(io, upper).io;
        lemma_call_made(world, work, Purpose::Success, third, one);
        if one.rest.len() > 0 {
            let two = ask(one, work).io;
            lemma_call_made(world, mount, Purpose::Task(purpose), fourth, two);
            if two.rest.len() > 0 {
                let three = ask(two, mount).io;
                assert(fourth =~= fourth + none);
                lemma_step_taken(world, mark, Purpose::Attempt, none, three);
                if three.rest.len() > 0 {
                    assert(none + none =~= none);
                    assert(run.io.asked =~= io.asked + seq![upper, work, mount, mark]);
                }
            }
        }
    }
}

/// Partitions are dealt with in their order, each to the end before the next. For each of them that
/// the device has and that has no marker, an overlay of the modules' directories is mounted over
/// the device's, and the others are passed over. Where all calls succeed nothing fails.
pub proof fn overlays_are_mounted_in_turn(
    world: World,
    work_base: Text,
    partitions: Seq<PartitionView>,
    i: int,
    io: Io,
)
    requires
        0 <= i <= partitions.len(),
        lends(world),
        no_zeros(work_base, partitions),
        truthful(world, io, overlays_from(work_base, partitions, i, io)),
    ensures
        ({
            let whole = overlays_from(work_base, partitions, i, io);
            &&& !(whole.out is Fail)
            &&& whole.out is Done ==> whole.io.asked == io.asked + partitions_requests(
                world,
                work_base,
                partitions,
                i,
            )
        }),
    decreases partitions.len() - i,
{
    reveal(overlays_from);
    let q = no_limits();
    let whole = overlays_from(work_base, partitions, i, io);
    if i < partitions.len() {
        let partition = partitions[i];
        let target = joined("/".spec_bytes(), partition.name);
        let marker = joined(target, ".overlayfs_mounted".spec_bytes());
        let rest = partitions_requests(world, work_base, partitions, i + 1);
        let requests = partition_requests(world, work_base, partition);
        let first = ask(io, Request::Exists(target));
        lemma_from_proceeds(work_base, partitions, i, io);
        if first.out is Done {
            let reply = io.rest[0];
            assert(whole == overlay_target(work_base, partitions, i, reply, first.io));
            lemma_truthful_ask(world, io, Request::Exists(target), whole, q);
            if reply == ReplyView::Flag(true) {
                let second = ask(first.io, Request::Exists(marker));
                if second.out is Done {
                    let marked = first.io.rest[0];
                    assert(whole == overlay_marked(work_base, partitions, i, marked, second.io));
                    lemma_truthful_ask(world, first.io, Request::Exists(marker), whole, q);
                    if marked == ReplyView::Flag(true) {
                        overlays_are_mounted_in_turn(
                            world,
                            work_base,
                            partitions,
                            i + 1,
                            second.io,
                        );
                        if whole.out is Done {
                            assert(whole.io.asked =~= io.asked + (requests + rest));
                        }
                    } else {
                        let steps = overlay_steps(work_base, partition);
                        let run = perform(steps, second.io);
                        assert(whole == overlays_ready(work_base, partitions, i + 1, run));
                        steps_are_orderly(steps, second.io);
                        assert(!overlay_options(work_base, partitions[i]).contains(0));
                        if run.out is Done {
                            lemma_from_proceeds(work_base, partitions, i + 1, run.io);
                            lemma_truthful_parts(world, second.io, run, whole, q);
                        } else {
                            assert(truthful(world, second.io, run));
                        }
                        lemma_overlay_made(world, work_base, partition, second.io);
                        if run.out is Done {
                            overlays_are_mounted_in_turn(
                                world,
                                work_base,
                                partitions,
                                i + 1,
                                run.io,
                            );
                            if whole.out is Done {
                                assert(whole.io.asked =~= io.asked + (requests + rest));
                            }
                        }
                    }
                }
            } else {
                overlays_are_mounted_in_turn(world, work_base, partitions, i + 1, first.io);
                if whole.out is Done {
                    assert(whole.io.asked =~= io.asked + (requests + rest));
                }
            }
        }
    } else {
        assert(io.asked + partitions_requests(world, work_base, partitions, i) =~= io.asked);
    }
}

/// When the modules' directories are known, the directory of all overlays is made and overlays are
/// mounted over all partitions that were found. Without any nothing is asked for.
pub proof fn all_found_partitions_are_mounted(
    world: World,
    rules: RulesView,
    work_base: Text,
    io: Io,
)
    requires
        lends(world),
        partitions_found(rules, io).out matches Outcome::Done(Some(partitions)) ==> no_zeros(
            work_base,
            partitions,
        ),
        truthful(world, io, overlays_found(work_base, partitions_found(rules, io))),
    ensures
        ({
            let found = partitions_found(rules, io);
            let whole = overlays_found(work_base, found);
            match found.out {
                Outcome::Done(Some(partitions)) => {
                    &&& !(whole.out is Fail)
                    &&& whole.out is Done ==> whole.io.asked == found.io.asked.push(
                        Request::EnsureDir(work_base),
                    ) + partitions_requests(world, work_base, partitions, 0)
                },
                Outcome::Done(None) => whole == done(found.io, ()),
                Outcome::Fail(e) => whole.io == found.io && whole.out == Outcome::<()>::Fail(e),
                Outcome::Waiting => whole.io == found.io && whole.out is Waiting,
            }
        }),
{
    reveal(overlays_from);
    let q = no_limits();
    let found = partitions_found(rules, io);
    let whole = overlays_found(work_base, found);
    partitions_found_only_reads(rules, io);
    lemma_weaken(io, found, module_queries(), q);
    match found.out {
        Outcome::Done(Some(partitions)) => {
            let none = Seq::<Step<Text>>::empty();
            let ensure = Request::EnsureDir(work_base);
            let steps = seq![must(ensure)];
            let ready = perform(steps, found.io);
            assert(whole == overlays_ready(work_base, partitions, 0, ready));
            steps_are_orderly(steps, found.io);
            lemma_from_proceeds(work_base, partitions, 0, ready.io);
            lemma_then(found.io, ready, whole, q);
            lemma_truthful_parts(world, io, found, whole, q);
            if ready.out is Done {
                lemma_truthful_parts(world, found.io, ready, whole, q);
            } else {
                assert(truthful(world, found.io, ready));
            }
            assert(steps =~= steps + none);
            lemma_call_made(world, ensure, Purpose::Success, none, found.io);
            if ready.out is Done {
                overlays_are_mounted_in_turn(world, work_base, partitions, 0, ready.io);
                if whole.out is Done {
                    assert(whole.io.asked =~= found.io.asked.push(ensure) + partitions_requests(
                        world,
                        work_base,
                        partitions,
                        0,
                    ));
                }
            }
        },
        _ => {},
    }
}

/// Options with a zero cannot be handed to the kernel: mounting ends before the overlay is asked
/// for.
pub proof fn options_with_a_zero_are_refused(work_base: Text, partition: PartitionView, io: Io)
    requires
        overlay_options(work_base, partition).contains(0),
        io.rest.len() >= 2,
        io.rest[0] == ReplyView::Done,
        io.rest[1] == ReplyView::Done,
    ensures
        ({
            let run = perform(overlay_steps(work_base, partition), io);
            let own = joined(work_base, partition.name);
            &&& run.out == Outcome::<()>::Fail(Error::OptionsWithNul)
            &&& run.io.asked == io.asked.push(
                Request::EnsureDir(joined(own, "upper".spec_bytes())),
            ).push(Request::EnsureDir(joined(own, "work".spec_bytes())))
        }),
{
    let own = joined(work_base, partition.name);
    let upper = Request::EnsureDir(joined(own, "upper".spec_bytes()));
    let work = Request::EnsureDir(joined(own, "work".spec_bytes()));
    let steps = overlay_steps(work_base, partition);
    let run = perform(steps, io);
    let one = ask(io, upper);
    let two = ask(one.io, work);
    let tail = seq![Step::Abort(Error::OptionsWithNul), steps[3]];
    let second = seq![must(work)] + tail;
    assert(steps =~= seq![must(upper)] + second);
    assert(one.io.rest[0] == io.rest[1]);
    assert(steps.drop_first() =~= second);
    assert(second.drop_first() =~= tail);
    assert(Seq::<Step<Text>>::empty() + second =~= second);
    assert(Seq::<Step<Text>>::empty() + tail =~= tail);
    assert(run == perform(second, one.io));
    assert(run == perform(tail, two.io));
}

} // verus!
