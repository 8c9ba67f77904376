//! What mounting and unmounting overlays does.

use vstd::prelude::*;
use vstd::string::is_ascii_spec_bytes;
#[allow(unused_imports)]
use vstd::string::StringSliceAdditionalSpecFns;
use vstd::utf8::valid_utf8;

use crate::bytes::{joined, lossy_text};
use crate::laws::conversation::{
    lemma_end, lemma_proceeds, lemma_then, lemma_weaken, proceeds, Limits,
};
use crate::laws::reading::{
    is_host_error, is_query, lemma_asked, module_queries, partitions_found_only_reads, queries,
};
use crate::laws::tree::{lemma_within_joined, relative, within};
use crate::overlay::{
    knows_overlay, lemma_place, lower_dirs, mounted_marker, names_partition, overlay_marked,
    overlay_options, overlay_steps, overlay_target, overlays_found, overlays_from, overlays_known,
    overlays_listed, overlays_mounted, overlays_ready, overlays_unmounted, own_dir,
    partitions_found, place, search, search_checked, search_dirs, search_listed, search_source,
    search_supported, unmount_done, unmount_from, unmount_marked, PartitionView, Search,
};
use crate::protocol::{
    ask, done, done_of, flag_of, in_task, listing_of, still_to_come, Entry, Error, FileKind, Io,
    Outcome, ReplyView, Request, Run, Task, Text,
};
use crate::rules::{device_dir, may_be_partition, supported, takes_part, RulesView};
use crate::script::{attempt, must, perform, perform_reply, task, Purpose, Step};

verus! {

/// A step that asks for something allowed and does not lead to further steps, or gives up with an
/// excused error.
pub open spec fn simple_step(step: Step<Text>, limits: Limits) -> bool {
    match step {
        Step::Ask(request, purpose) => {
            &&& (limits.allowed)(request)
            &&& purpose is Success || purpose is Task || purpose is Attempt
        },
        Step::Abort(e) => (limits.excused)(e),
    }
}

/// Simple steps are performed in good order.
pub proof fn lemma_simple_steps(steps: Seq<Step<Text>>, io: Io, limits: Limits)
    requires
        forall|i: int| 0 <= i < steps.len() ==> simple_step(#[trigger] steps[i], limits),
        forall|e: Error<Text>| #[trigger] is_host_error(e) ==> (limits.excused)(e),
    ensures
        proceeds(io, perform(steps, io), limits),
    decreases steps.len(),
{
    if steps.len() == 0 {
        lemma_end(io, Outcome::Done(()), limits);
    } else {
        assert(simple_step(steps[0], limits));
        match steps[0] {
            Step::Abort(e) => {
                lemma_end(io, Outcome::<()>::Fail(e), limits);
            },
            Step::Ask(request, purpose) => {
                let run = ask(io, request);
                let rest = steps.drop_first();
                match run.out {
                    Outcome::Done(reply) => {
                        assert(perform(steps, io) == perform_reply(purpose, rest, reply, run.io));
                        assert forall|i: int| 0 <= i < rest.len() implies simple_step(
                            #[trigger] rest[i],
                            limits,
                        ) by {
                            assert(simple_step(steps[i + 1], limits));
                        }
                        lemma_simple_steps(rest, run.io, limits);
                        assert(Seq::<Step<Text>>::empty() + rest =~= rest);
                        match done_of(reply) {
                            Ok(_) => {},
                            Err(e) => {
                                assert(is_host_error(e));
                                match purpose {
                                    Purpose::Success => {
                                        lemma_end(run.io, Outcome::<()>::Fail(e), limits);
                                    },
                                    Purpose::Task(task) => {
                                        let error = in_task(task, e);
                                        assert(is_host_error(error));
                                        lemma_end(run.io, Outcome::<()>::Fail(error), limits);
                                    },
                                    _ => {},
                                }
                            },
                        }
                    },
                    _ => {},
                }
                lemma_asked(io, request, perform(steps, io), limits);
            },
        }
    }
}

/// Of two modules with a directory for the same partition, the later one comes first in the
/// overlay, and the device's own directory comes last.
pub proof fn later_modules_take_precedence(partition: PartitionView, i: int, j: int)
    requires
        0 <= i < j < partition.sources.len(),
    ensures
        ({
            let dirs = lower_dirs(partition);
            let n = partition.sources.len();
            &&& dirs.len() == n + 1
            &&& n - 1 - j < n - 1 - i < n
            &&& dirs[n - 1 - j] == lossy_text(partition.sources[j].1)
            &&& dirs[n - 1 - i] == lossy_text(partition.sources[i].1)
            &&& dirs.last() == lossy_text(device_dir(partition.name))
        }),
{
}

/// The modules that sources come from follow each other as in the list of modules, none later
/// than `bound`.
pub open spec fn in_module_order(
    modules: Seq<Entry<Text>>,
    sources: Seq<(Text, Text)>,
    bound: int,
) -> bool
    decreases sources.len(),
{
    sources.len() > 0 ==> exists|k: int|
        0 <= k <= bound && k < modules.len() && (#[trigger] modules[k]).name == sources.last().0
            && in_module_order(modules, sources.drop_last(), k)
}

/// A partition for which modules have directories. The partition is supported and its name is
/// text. Each source is the directory of that name in the directory of a module, and the sources
/// are in the order of the modules.
pub open spec fn well_sourced(
    rules: RulesView,
    modules: Seq<Entry<Text>>,
    bound: int,
    partition: PartitionView,
) -> bool {
    &&& rules.supported_partitions.contains(partition.name)
    &&& valid_utf8(partition.name)
    &&& partition.sources.len() > 0
    &&& forall|i: int|
        0 <= i < partition.sources.len() ==> (#[trigger] partition.sources[i]).1 == joined(
            joined(rules.module_dir, partition.sources[i].0),
            partition.name,
        )
    &&& in_module_order(modules, partition.sources, bound)
}

/// Partitions that modules have directories for, each of them once.
pub open spec fn well_found(
    rules: RulesView,
    modules: Seq<Entry<Text>>,
    bound: int,
    partitions: Seq<PartitionView>,
) -> bool {
    &&& forall|i: int, j: int|
        0 <= i < j < partitions.len() ==> (#[trigger] partitions[i]).name != (
        #[trigger] partitions[j]).name
    &&& forall|i: int|
        0 <= i < partitions.len() ==> well_sourced(
            rules,
            modules,
            bound,
            #[trigger] partitions[i],
        )
}

/// Sources in order stay so when later modules are allowed.
proof fn lemma_later_bound(
    modules: Seq<Entry<Text>>,
    sources: Seq<(Text, Text)>,
    bound: int,
    later: int,
)
    requires
        in_module_order(modules, sources, bound),
        bound <= later,
    ensures
        in_module_order(modules, sources, later),
{
    if sources.len() > 0 {
        let k = choose|k: int|
            0 <= k <= bound && k < modules.len() && (#[trigger] modules[k]).name
                == sources.last().0 && in_module_order(modules, sources.drop_last(), k);
        assert(modules[k].name == sources.last().0);
    }
}

/// What was found stays well found when later modules are allowed.
proof fn lemma_well_found_later(
    rules: RulesView,
    modules: Seq<Entry<Text>>,
    bound: int,
    later: int,
    partitions: Seq<PartitionView>,
)
    requires
        well_found(rules, modules, bound, partitions),
        bound <= later,
    ensures
        well_found(rules, modules, later, partitions),
{
    assert forall|i: int| 0 <= i < partitions.len() implies well_sourced(
        rules,
        modules,
        later,
        #[trigger] partitions[i],
    ) by {
        assert(well_sourced(rules, modules, bound, partitions[i]));
        lemma_later_bound(modules, partitions[i].sources, bound, later);
    }
}

/// The directory of one more module takes its place behind those of earlier ones.
proof fn lemma_with_source(s: Search, name: Text)
    requires
        0 <= s.next < s.modules.len(),
        well_found(s.rules, s.modules, s.next, s.partitions),
        s.rules.supported_partitions.contains(name),
        valid_utf8(name),
    ensures
        well_found(s.rules, s.modules, s.next, s.with(name).partitions),
        s.with(name).partitions.len() > 0,
{
    let old_list = s.partitions;
    let new_list = s.with(name).partitions;
    let source = (s.module(), joined(s.path(), name));
    lemma_place(old_list, name);
    let (k, sources) = match place(old_list, name) {
        Some(k) => (k, old_list[k].sources),
        None => (old_list.len() as int, Seq::<(Text, Text)>::empty()),
    };
    let partition = PartitionView { name, sources: sources.push(source) };
    assert(Seq::<(Text, Text)>::empty().push(source) =~= seq![source]);
    assert(new_list[k] == partition);
    assert(well_sourced(s.rules, s.modules, s.next, partition)) by {
        if place(old_list, name) is Some {
            assert(well_sourced(s.rules, s.modules, s.next, old_list[k]));
        }
        assert(in_module_order(s.modules, sources, s.next));
        assert(partition.sources.drop_last() =~= sources);
        assert(in_module_order(s.modules, partition.sources.drop_last(), s.next));
        assert(s.modules[s.next].name == partition.sources.last().0);
        assert forall|i: int| 0 <= i < partition.sources.len() implies (
        #[trigger] partition.sources[i]).1 == joined(
            joined(s.rules.module_dir, partition.sources[i].0),
            name,
        ) by {
            assert(i < sources.len() ==> partition.sources[i] == sources[i]);
        }
    }
    assert forall|i: int| 0 <= i < new_list.len() implies well_sourced(
        s.rules,
        s.modules,
        s.next,
        #[trigger] new_list[i],
    ) by {
        assert(i != k ==> new_list[i] == old_list[i]);
    }
    assert forall|i: int, j: int| 0 <= i < j < new_list.len() implies (
    #[trigger] new_list[i]).name != (#[trigger] new_list[j]).name by {
        assert(j < old_list.len() ==> old_list[i].name != old_list[j].name);
    }
}

/// The partitions that are found are each listed once, only where they are supported, and with at
/// least one source. The sources are directories of modules, in the order of the modules.
pub proof fn partitions_are_well_found(rules: RulesView, io: Io)
    ensures
        partitions_found(rules, io).out matches Outcome::Done(Some(partitions)) ==> {
            &&& io.rest.len() > 0
            &&& listing_of(io.rest[0]) matches Ok(modules) && well_found(
                rules,
                modules,
                modules.len() as int,
                partitions,
            )
            &&& partitions.len() > 0
        },
{
    let run = ask(io, Request::ListDir(rules.module_dir));
    match run.out {
        Outcome::Done(reply) => match listing_of(reply) {
            Ok(modules) => {
                lemma_search(Search { rules, modules, next: 0, partitions: Seq::empty() }, run.io);
            },
            Err(_) => {},
        },
        _ => {},
    }
}

/// What a way through the modules leads to.
spec fn search_ends_well(s: Search, run: Run<Option<Seq<PartitionView>>>) -> bool {
    run.out matches Outcome::Done(Some(partitions)) ==> {
        &&& well_found(s.rules, s.modules, s.modules.len() as int, partitions)
        &&& partitions.len() > 0
    }
}

/// What the modules that are still to come lead to.
proof fn lemma_search(s: Search, io: Io)
    requires
        0 <= s.next,
        well_found(s.rules, s.modules, s.next, s.partitions),
    ensures
        search_ends_well(s, search(s, io)),
    decreases s.left(), 10nat, 0nat,
{
    reveal(search);
    reveal(search_dirs);
    if s.next >= s.modules.len() {
        assert forall|i: int| 0 <= i < s.partitions.len() implies well_sourced(
            s.rules,
            s.modules,
            s.modules.len() as int,
            #[trigger] s.partitions[i],
        ) by {
            lemma_bounded(s.modules, s.partitions[i].sources, s.next);
        }
    } else {
        lemma_well_found_later(s.rules, s.modules, s.next, s.next + 1, s.partitions);
        match s.modules[s.next].kind {
            Ok(FileKind::Dir) => {
                if valid_utf8(s.module()) {
                    let run = takes_part(s.rules, s.path(), io);
                    assert(search(s, io) == search_checked(s, run));
                    match run.out {
                        Outcome::Done(true) => {
                            let listed = ask(run.io, Request::ListDir(s.path()));
                            assert(search_checked(s, run) == search_listed(s, listed));
                            match listed.out {
                                Outcome::Done(reply) => match listing_of(reply) {
                                    Ok(dirs) => {
                                        lemma_search_dirs(s, dirs, 0, listed.io);
                                    },
                                    Err(_) => {},
                                },
                                _ => {},
                            }
                        },
                        Outcome::Done(false) => {
                            lemma_search(s.passed(), run.io);
                        },
                        _ => {},
                    }
                }
            },
            Ok(_) => {
                lemma_search(s.passed(), io);
            },
            Err(_) => {},
        }
    }
}

/// No source comes from behind the end of the list of modules.
proof fn lemma_bounded(modules: Seq<Entry<Text>>, sources: Seq<(Text, Text)>, bound: int)
    requires
        in_module_order(modules, sources, bound),
    ensures
        in_module_order(modules, sources, modules.len() as int),
{
    if sources.len() > 0 {
        let k = choose|k: int|
            0 <= k <= bound && k < modules.len() && (#[trigger] modules[k]).name
                == sources.last().0 && in_module_order(modules, sources.drop_last(), k);
        assert(modules[k].name == sources.last().0);
    }
}

/// What the directories of a module that are still to come lead to.
proof fn lemma_search_dirs(s: Search, dirs: Seq<Entry<Text>>, j: int, io: Io)
    requires
        0 <= s.next < s.modules.len(),
        well_found(s.rules, s.modules, s.next, s.partitions),
    ensures
        search_ends_well(s, search_dirs(s, dirs, j, io)),
    decreases s.left(), 7nat, 3 * still_to_come(dirs, j),
{
    reveal(search);
    reveal(search_dirs);
    if j < 0 || j >= dirs.len() {
        lemma_well_found_later(s.rules, s.modules, s.next, s.next + 1, s.partitions);
        lemma_search(s.passed(), io);
    } else if may_be_partition(dirs[j]) {
        let name = dirs[j].name;
        let run = supported(s.rules, name, io);
        assert(search_dirs(s, dirs, j, io) == search_supported(s, dirs, j, run));
        match run.out {
            Outcome::Done(true) => {
                let next = ask(run.io, Request::IsDir(joined(s.path(), name)));
                assert(search_supported(s, dirs, j, run) == search_source(s, dirs, j, next));
                lemma_with_source(s, name);
                lemma_search_dirs(s.with(name), dirs, j + 1, next.io);
                lemma_search_dirs(s, dirs, j + 1, next.io);
            },
            Outcome::Done(false) => {
                lemma_search_dirs(s, dirs, j + 1, run.io);
            },
            _ => {},
        }
    } else {
        lemma_search_dirs(s, dirs, j + 1, io);
    }
}

/// What mounting overlays may ask for: directories for the overlays themselves, and an overlay and
/// a marker for each supported partition.
pub open spec fn is_overlay_request(
    rules: RulesView,
    work_base: Text,
    request: Request<Text>,
) -> bool {
    match request {
        Request::EnsureDir(p) => within(work_base, p),
        Request::MountOverlay { target, options } => {
            &&& !options.contains(0)
            &&& exists|name: Text| #[trigger]
                rules.supported_partitions.contains(name) && target == device_dir(name)
        },
        Request::CreateFile(p) => exists|name: Text| #[trigger]
            rules.supported_partitions.contains(name) && p == mounted_marker(name),
        _ => is_query(request),
    }
}

/// Only overlays over supported partitions are mounted, and there are no errors but the host's,
/// that of a module's name that is not text, and those of overlays.
pub open spec fn overlay_limits(rules: RulesView, work_base: Text) -> Limits {
    Limits {
        allowed: |r: Request<Text>| is_overlay_request(rules, work_base, r),
        excused: |e: Error<Text>|
            is_host_error(e) || e is ModuleName || e is NoOverlay || e is OptionsWithNul,
    }
}

/// No supported partition is named by an absolute path.
pub open spec fn plain_rules(rules: RulesView) -> bool {
    forall|i: int|
        0 <= i < rules.supported_partitions.len() ==> relative(
            #[trigger] rules.supported_partitions[i],
        )
}

/// The directories of an overlay are below the directory for overlays.
proof fn lemma_own_dirs(work_base: Text, name: Text)
    requires
        relative(name),
    ensures
        within(work_base, own_dir(work_base, name, "upper".spec_bytes())),
        within(work_base, own_dir(work_base, name, "work".spec_bytes())),
{
    reveal_strlit("upper");
    reveal_strlit("work");
    is_ascii_spec_bytes("upper");
    is_ascii_spec_bytes("work");
    assert(work_base.take(work_base.len() as int) =~= work_base);
    lemma_within_joined(work_base, work_base, name);
    lemma_within_joined(work_base, joined(work_base, name), "upper".spec_bytes());
    lemma_within_joined(work_base, joined(work_base, name), "work".spec_bytes());
}

/// Mounting the overlay of a partition stays within its limits.
proof fn lemma_overlay_steps(rules: RulesView, work_base: Text, partition: PartitionView, io: Io)
    requires
        plain_rules(rules),
        rules.supported_partitions.contains(partition.name),
    ensures
        proceeds(io, perform(overlay_steps(work_base, partition), io), overlay_limits(
            rules,
            work_base,
        )),
{
    let limits = overlay_limits(rules, work_base);
    let steps = overlay_steps(work_base, partition);
    lemma_own_dirs(work_base, partition.name);
    assert forall|i: int| 0 <= i < steps.len() implies simple_step(#[trigger] steps[i], limits) by {
        assert(rules.supported_partitions.contains(partition.name));
    }
    lemma_simple_steps(steps, io, limits);
}

/// Mounting several overlays stays within the limits.
proof fn lemma_overlays_from(
    rules: RulesView,
    work_base: Text,
    partitions: Seq<PartitionView>,
    i: int,
    io: Io,
)
    requires
        plain_rules(rules),
        forall|k: int|
            0 <= k < partitions.len() ==> rules.supported_partitions.contains(
                (#[trigger] partitions[k]).name,
            ),
    ensures
        proceeds(
            io,
            overlays_from(work_base, partitions, i, io),
            overlay_limits(rules, work_base),
        ),
    decreases partitions.len() - i,
{
    reveal(overlays_from);
    let limits = overlay_limits(rules, work_base);
    if i < 0 || i >= partitions.len() {
        lemma_end(io, Outcome::Done(()), limits);
    } else {
        let partition = partitions[i];
        let whole = overlays_from(work_base, partitions, i, io);
        let target = Request::Exists(device_dir(partition.name));
        let run = ask(io, target);
        match run.out {
            Outcome::Done(reply) => {
                assert(whole == overlay_target(work_base, partitions, i, reply, run.io));
                if flag_of(reply) {
                    let marker = Request::Exists(mounted_marker(partition.name));
                    let next = ask(run.io, marker);
                    match next.out {
                        Outcome::Done(marked) => {
                            assert(whole == overlay_marked(
                                work_base,
                                partitions,
                                i,
                                marked,
                                next.io,
                            ));
                            if flag_of(marked) {
                                lemma_overlays_from(rules, work_base, partitions, i + 1, next.io);
                            } else {
                                let mounting = perform(
                                    overlay_steps(work_base, partition),
                                    next.io,
                                );
                                assert(whole == overlays_ready(
                                    work_base,
                                    partitions,
                                    i + 1,
                                    mounting,
                                ));
                                lemma_overlay_steps(rules, work_base, partition, next.io);
                                lemma_overlays_from(
                                    rules,
                                    work_base,
                                    partitions,
                                    i + 1,
                                    mounting.io,
                                );
                                lemma_then(next.io, mounting, whole, limits);
                            }
                        },
                        _ => {},
                    }
                    lemma_asked(run.io, marker, whole, limits);
                } else {
                    lemma_overlays_from(rules, work_base, partitions, i + 1, run.io);
                }
            },
            _ => {},
        }
        lemma_asked(io, target, whole, limits);
    }
}

/// Mounting overlays covers supported partitions only, and creates nothing besides the overlays'
/// own directories and their markers.
pub proof fn overlays_cover_supported_partitions(rules: RulesView, work_base: Text, io: Io)
    requires
        plain_rules(rules),
    ensures
        proceeds(io, overlays_mounted(rules, work_base, io), overlay_limits(rules, work_base)),
{
    let limits = overlay_limits(rules, work_base);
    let whole = overlays_mounted(rules, work_base, io);
    let known = Request::Exists("/proc/filesystems".spec_bytes());
    let run = ask(io, known);
    match run.out {
        Outcome::Done(reply) => {
            assert(whole == overlays_listed(rules, work_base, reply, run.io));
            if flag_of(reply) {
                let read = Request::ReadText("/proc/filesystems".spec_bytes());
                let text = ask(run.io, read);
                match text.out {
                    Outcome::Done(reply) => {
                        assert(whole == overlays_known(rules, work_base, reply, text.io));
                        if knows_overlay(reply) {
                            lemma_overlays_found(rules, work_base, text.io);
                        } else {
                            lemma_end(text.io, Outcome::<()>::Fail(Error::NoOverlay), limits);
                        }
                    },
                    _ => {},
                }
                lemma_asked(run.io, read, whole, limits);
            } else {
                lemma_end(run.io, Outcome::<()>::Fail(Error::NoOverlay), limits);
            }
        },
        _ => {},
    }
    lemma_asked(io, known, whole, limits);
}

/// Mounting overlays for what modules have stays within the limits.
proof fn lemma_overlays_found(rules: RulesView, work_base: Text, io: Io)
    requires
        plain_rules(rules),
    ensures
        proceeds(
            io,
            overlays_found(work_base, partitions_found(rules, io)),
            overlay_limits(rules, work_base),
        ),
{
    reveal(overlays_from);
    let limits = overlay_limits(rules, work_base);
    let found = partitions_found(rules, io);
    let whole = overlays_found(work_base, found);
    partitions_found_only_reads(rules, io);
    partitions_are_well_found(rules, io);
    lemma_weaken(io, found, module_queries(), limits);
    match found.out {
        Outcome::Done(Some(partitions)) => {
            let steps = seq![must(Request::EnsureDir(work_base))];
            let prepared = perform(steps, found.io);
            assert(work_base.take(work_base.len() as int) =~= work_base);
            lemma_simple_steps(steps, found.io, limits);
            assert(whole == overlays_ready(work_base, partitions, 0, prepared));
            let listed = rules.supported_partitions;
            assert forall|k: int| 0 <= k < partitions.len() implies listed.contains(
                (#[trigger] partitions[k]).name,
            ) by {
                let modules = listing_of(io.rest[0])->Ok_0;
                assert(well_sourced(rules, modules, modules.len() as int, partitions[k]));
            }
            lemma_overlays_from(rules, work_base, partitions, 0, prepared.io);
            lemma_then(found.io, prepared, whole, limits);
        },
        Outcome::Done(None) => {
            lemma_end(found.io, Outcome::Done(()), limits);
        },
        _ => {},
    }
    lemma_then(io, found, whole, limits);
}

/// Where the kernel does not know the overlay file system, mounting overlays fails, and nothing
/// has been changed.
pub proof fn no_overlays_without_support(rules: RulesView, work_base: Text, io: Io)
    requires
        io.rest.len() >= 2,
        !flag_of(io.rest[0]) || !knows_overlay(io.rest[1]),
    ensures
        ({
            let run = overlays_mounted(rules, work_base, io);
            &&& run.out == Outcome::<()>::Fail(Error::NoOverlay)
            &&& proceeds(io, run, Limits {
                allowed: |r: Request<Text>| is_query(r),
                excused: |e: Error<Text>| e is NoOverlay,
            })
        }),
{
    let limits = Limits {
        allowed: |r: Request<Text>| is_query(r),
        excused: |e: Error<Text>| e is NoOverlay,
    };
    let whole = overlays_mounted(rules, work_base, io);
    let known = Request::Exists("/proc/filesystems".spec_bytes());
    let run = ask(io, known);
    let read = Request::ReadText("/proc/filesystems".spec_bytes());
    let text = ask(run.io, read);
    lemma_end(run.io, Outcome::<()>::Fail(Error::NoOverlay), limits);
    lemma_end(text.io, Outcome::<()>::Fail(Error::NoOverlay), limits);
    assert(run.io.rest[0] == io.rest[1]);
    if flag_of(io.rest[0]) {
        lemma_asked(run.io, read, whole, limits);
    }
    lemma_asked(io, known, whole, limits);
}

/// A partition that the device does not have, or that is marked as mounted, is left alone: only
/// the questions about it are asked before the next one.
pub proof fn marked_partitions_are_left_alone(
    work_base: Text,
    partitions: Seq<PartitionView>,
    i: int,
    io: Io,
)
    requires
        0 <= i < partitions.len(),
        io.rest.len() >= 2,
        !flag_of(io.rest[0]) || flag_of(io.rest[1]),
    ensures
        ({
            let first = ask(io, Request::Exists(device_dir(partitions[i].name)));
            let second = ask(first.io, Request::Exists(mounted_marker(partitions[i].name)));
            overlays_from(work_base, partitions, i, io) == overlays_from(
                work_base,
                partitions,
                i + 1,
                if flag_of(io.rest[0]) {
                    second.io
                } else {
                    first.io
                },
            )
        }),
{
    reveal(overlays_from);
    let first = ask(io, Request::Exists(device_dir(partitions[i].name)));
    let second = ask(first.io, Request::Exists(mounted_marker(partitions[i].name)));
    assert(first.io.rest[0] == io.rest[1]);
    let whole = overlays_from(work_base, partitions, i, io);
    assert(whole == overlay_target(work_base, partitions, i, io.rest[0], first.io));
    if flag_of(io.rest[0]) {
        assert(whole == overlay_marked(work_base, partitions, i, io.rest[1], second.io));
    }
}

/// What taking overlays back may ask for: to unmount partitions that have a directory among those
/// of the overlays, to remove their markers, and to remove all those directories.
pub open spec fn is_unmount_request(
    work_base: Text,
    entries: Seq<Entry<Text>>,
    request: Request<Text>,
) -> bool {
    match request {
        Request::Unmount(p) => exists|k: int|
            0 <= k < entries.len() && names_partition(#[trigger] entries[k]) && p == device_dir(
                entries[k].name,
            ),
        Request::RemoveFile(p) => exists|k: int|
            0 <= k < entries.len() && names_partition(#[trigger] entries[k]) && p
                == mounted_marker(entries[k].name),
        Request::RemoveTree(p) => p == work_base,
        _ => is_query(request),
    }
}

/// Only overlays are taken back, and nothing fails.
pub open spec fn unmount_limits(work_base: Text, entries: Seq<Entry<Text>>) -> Limits {
    Limits {
        allowed: |r: Request<Text>| is_unmount_request(work_base, entries, r),
        excused: |e: Error<Text>| false,
    }
}

/// Each marker that is removed is that of a partition that was successfully unmounted just before.
pub open spec fn markers_follow_unmounts(io: Io, run: Run<()>) -> bool {
    forall|j: int|
        io.asked.len() <= j < run.io.asked.len() && (#[trigger] run.io.asked[j]) is RemoveFile
            ==> marker_follows_unmount(io, run, j)
}

/// The marker that is removed by the request at `j` is that of a partition whose unmounting was
/// asked for just before, with success.
pub open spec fn marker_follows_unmount(io: Io, run: Run<()>, j: int) -> bool {
    &&& io.asked.len() < j < run.io.asked.len()
    &&& 0 <= j - 1 - io.asked.len() < io.rest.len()
    &&& done_of(io.rest[j - 1 - io.asked.len()]) is Ok
    &&& exists|name: Text|
        run.io.asked[j] == Request::RemoveFile(#[trigger] mounted_marker(name))
            && run.io.asked[j - 1] == Request::Unmount(device_dir(name))
}

/// What taking back the overlays from some entry on does. In the end their directories are removed,
/// or nothing was changed at all; the latter only if `clear` does not rule it out.
pub open spec fn takes_back(
    work_base: Text,
    entries: Seq<Entry<Text>>,
    clear: bool,
    io: Io,
    run: Run<()>,
) -> bool {
    &&& proceeds(io, run, unmount_limits(work_base, entries))
    &&& markers_follow_unmounts(io, run)
    &&& !(run.out is Waiting) ==> {
        &&& run.out is Done
        &&& ends_by_clearing(work_base, io, run) || !clear && proceeds(io, run, queries())
    }
}

/// The last request is that to remove all directories of overlays.
pub open spec fn ends_by_clearing(work_base: Text, io: Io, run: Run<()>) -> bool {
    &&& run.io.asked.len() > io.asked.len()
    &&& run.io.asked.last() == Request::RemoveTree(work_base)
}

/// Taking back overlays may start with a question, or with unmounting a partition.
proof fn lemma_asked_before(
    work_base: Text,
    entries: Seq<Entry<Text>>,
    clear: bool,
    io: Io,
    request: Request<Text>,
    whole: Run<()>,
)
    requires
        is_unmount_request(work_base, entries, request),
        !(request is RemoveFile),
        clear || is_query(request),
        match ask(io, request).out {
            Outcome::Done(_) => takes_back(work_base, entries, clear, ask(io, request).io, whole),
            _ => whole.io == ask(io, request).io && whole.out is Waiting,
        },
    ensures
        takes_back(work_base, entries, clear, io, whole),
{
    let limits = unmount_limits(work_base, entries);
    let run = ask(io, request);
    lemma_asked(io, request, whole, limits);
    if run.out is Done && proceeds(run.io, whole, queries()) && is_query(request) {
        lemma_asked(io, request, whole, queries());
    }
    if run.out is Done {
        lemma_proceeds(run.io, whole, limits);
        assert forall|j: int|
            io.asked.len() <= j < whole.io.asked.len() && (
            #[trigger] whole.io.asked[j]) is RemoveFile implies marker_follows_unmount(
            io,
            whole,
            j,
        ) by {
            if j == io.asked.len() {
                assert(whole.io.asked[j] == whole.io.asked.take(run.io.asked.len() as int)[j]);
            } else {
                assert(marker_follows_unmount(run.io, whole, j));
                assert(run.io.rest[j - 1 - run.io.asked.len()] == io.rest[j - 1 - io.asked.len()]);
            }
        }
    }
}

/// The marker of a partition is removed when that was unmounted.
proof fn lemma_removed_after(
    work_base: Text,
    entries: Seq<Entry<Text>>,
    i: int,
    io: Io,
    whole: Run<()>,
)
    requires
        0 <= i < entries.len(),
        names_partition(entries[i]),
        io.rest.len() > 0,
        done_of(io.rest[0]) is Ok,
        ({
            let gone = ask(io, Request::Unmount(device_dir(entries[i].name)));
            let removed = ask(gone.io, Request::RemoveFile(mounted_marker(entries[i].name)));
            match removed.out {
                Outcome::Done(_) => takes_back(work_base, entries, true, removed.io, whole),
                _ => whole.io == removed.io && whole.out is Waiting,
            }
        }),
    ensures
        takes_back(work_base, entries, true, io, whole),
{
    let limits = unmount_limits(work_base, entries);
    let name = entries[i].name;
    let detach = Request::Unmount(device_dir(name));
    let remove = Request::RemoveFile(mounted_marker(name));
    let gone = ask(io, detach);
    let removed = ask(gone.io, remove);
    let n = io.asked.len() as int;
    lemma_asked(gone.io, remove, whole, limits);
    lemma_asked(io, detach, whole, limits);
    lemma_proceeds(gone.io, whole, limits);
    if removed.out is Done {
        lemma_proceeds(removed.io, whole, limits);
    }
    assert(removed.io.asked == io.asked.push(detach).push(remove));
    assert(whole.io.asked[n + 1] == remove && whole.io.asked[n] == detach) by {
        let prefix = whole.io.asked.take(n + 2);
        if removed.out is Done {
            assert(prefix == removed.io.asked);
            assert(whole.io.asked[n] == prefix[n]);
            assert(whole.io.asked[n + 1] == prefix[n + 1]);
        }
    }
    assert forall|j: int|
        n <= j < whole.io.asked.len() && (
        #[trigger] whole.io.asked[j]) is RemoveFile implies marker_follows_unmount(
        io,
        whole,
        j,
    ) by {
        if j == n + 1 {
            assert(whole.io.asked[j] == Request::RemoveFile(mounted_marker(name)));
        } else if j > n + 1 {
            assert(removed.out is Done);
            assert(marker_follows_unmount(removed.io, whole, j));
            assert(removed.io.rest[j - 1 - removed.io.asked.len()] == io.rest[j - 1 - n]);
        }
    }
}

/// Taking back overlays one by one does not fail. It unmounts only partitions that have a directory
/// among those of the overlays, removes the marker of a partition only when that was unmounted, and
/// ends by removing all directories of overlays. Where only those that are left are taken back,
/// and there are none, nothing is changed.
pub proof fn overlays_are_taken_back(
    work_base: Text,
    entries: Seq<Entry<Text>>,
    i: int,
    clear: bool,
    io: Io,
)
    requires
        0 <= i,
    ensures
        takes_back(
            work_base,
            entries,
            clear,
            io,
            unmount_from(work_base, entries, i, clear, io),
        ),
    decreases still_to_come(entries, i),
{
    reveal(unmount_from);
    let limits = unmount_limits(work_base, entries);
    let whole = unmount_from(work_base, entries, i, clear, io);
    if i >= entries.len() && !clear {
        lemma_end(io, Outcome::Done(()), limits);
        lemma_end(io, Outcome::Done(()), queries());
    } else if i >= entries.len() {
        let remove = Request::RemoveTree(work_base);
        let run = ask(io, remove);
        let steps = seq![attempt(remove)];
        match run.out {
            Outcome::Done(reply) => {
                assert(steps.drop_first() =~= Seq::empty());
                assert(whole == perform_reply(Purpose::Attempt, Seq::empty(), reply, run.io));
                assert(Seq::<Step<Text>>::empty() + Seq::empty() =~= Seq::empty());
                assert(whole == done(run.io, ()));
                lemma_end(run.io, Outcome::Done(()), limits);
            },
            _ => {},
        }
        lemma_asked(io, remove, whole, limits);
    } else if names_partition(entries[i]) {
        let name = entries[i].name;
        let query = Request::Exists(mounted_marker(name));
        let run = ask(io, query);
        match run.out {
            Outcome::Done(reply) => {
                assert(whole == unmount_marked(work_base, entries, i, clear, reply, run.io));
                if flag_of(reply) {
                    let detach = Request::Unmount(device_dir(name));
                    let gone = ask(run.io, detach);
                    match gone.out {
                        Outcome::Done(result) => {
                            assert(whole == unmount_done(work_base, entries, i, result, gone.io));
                            if done_of(result) is Ok {
                                let remove = Request::RemoveFile(mounted_marker(name));
                                let removed = ask(gone.io, remove);
                                if removed.out is Done {
                                    overlays_are_taken_back(
                                        work_base,
                                        entries,
                                        i + 1,
                                        true,
                                        removed.io,
                                    );
                                }
                                lemma_removed_after(work_base, entries, i, run.io, whole);
                            } else {
                                overlays_are_taken_back(work_base, entries, i + 1, true, gone.io);
                                lemma_asked_before(work_base, entries, true, run.io, detach, whole);
                            }
                        },
                        _ => {
                            lemma_asked_before(work_base, entries, true, run.io, detach, whole);
                        },
                    }
                } else {
                    overlays_are_taken_back(work_base, entries, i + 1, clear, run.io);
                }
            },
            _ => {},
        }
        lemma_asked_before(work_base, entries, clear, io, query, whole);
    } else {
        overlays_are_taken_back(work_base, entries, i + 1, clear, io);
    }
}

/// Where nothing was mounted, taking overlays back does nothing.
pub proof fn nothing_to_take_back(work_base: Text, io: Io)
    requires
        io.rest.len() > 0,
        !flag_of(io.rest[0]),
    ensures
        overlays_unmounted(work_base, io) == done(
            ask(io, Request::Exists(work_base)).io,
            (),
        ),
{
}

/// Every overlay that is mounted can be taken back. Its directories stand in one that is named like
/// the partition. Once the host lists that one and says that the marker is there, the very
/// directory that the overlay was mounted over is unmounted.
pub proof fn mounted_overlays_are_found_again(
    rules: RulesView,
    modules: Seq<Entry<Text>>,
    work_base: Text,
    partition: PartitionView,
    entries: Seq<Entry<Text>>,
    i: int,
    clear: bool,
    io: Io,
)
    requires
        well_sourced(rules, modules, modules.len() as int, partition),
        0 <= i < entries.len(),
        entries[i].name == partition.name,
        entries[i].kind == Ok::<FileKind, u64>(FileKind::Dir),
        io.rest.len() > 0,
        flag_of(io.rest[0]),
    ensures
        ({
            let steps = overlay_steps(work_base, partition);
            let marker = mounted_marker(partition.name);
            let target = device_dir(partition.name);
            let whole = unmount_from(work_base, entries, i, clear, io);
            let n = io.asked.len() as int;
            &&& steps[0] == must(
                Request::EnsureDir(
                    joined(joined(work_base, partition.name), "upper".spec_bytes()),
                ),
            )
            &&& steps[1] == must(
                Request::EnsureDir(joined(joined(work_base, partition.name), "work".spec_bytes())),
            )
            &&& steps[2] matches Step::Ask(Request::MountOverlay { target: t, options: _ }, _)
                ==> t == target
            &&& steps[3] == attempt(Request::CreateFile(marker))
            &&& whole.io.asked.len() >= n + 2
            &&& whole.io.asked[n] == Request::Exists(marker)
            &&& whole.io.asked[n + 1] == Request::Unmount(target)
        }),
{
    reveal(unmount_from);
    let limits = unmount_limits(work_base, entries);
    let whole = unmount_from(work_base, entries, i, clear, io);
    let query = Request::Exists(mounted_marker(partition.name));
    let run = ask(io, query);
    let detach = Request::Unmount(device_dir(partition.name));
    let gone = ask(run.io, detach);
    let n = io.asked.len() as int;
    assert(whole == unmount_marked(work_base, entries, i, clear, io.rest[0], run.io));
    match gone.out {
        Outcome::Done(result) => {
            assert(whole == unmount_done(work_base, entries, i, result, gone.io));
            let remove = Request::RemoveFile(mounted_marker(partition.name));
            let removed = ask(gone.io, remove);
            overlays_are_taken_back(work_base, entries, i + 1, true, removed.io);
            overlays_are_taken_back(work_base, entries, i + 1, true, gone.io);
            if done_of(result) is Ok {
                lemma_asked(gone.io, remove, whole, limits);
            }
            lemma_proceeds(gone.io, whole, limits);
            let prefix = whole.io.asked.take(n + 2);
            assert(prefix == gone.io.asked);
            assert(whole.io.asked[n] == prefix[n]);
            assert(whole.io.asked[n + 1] == prefix[n + 1]);
        },
        _ => {},
    }
}

/// A call that fails as part of a task ends a script right behind itself, and the error names the
/// task.
pub proof fn failed_tasks_are_named(
    name: Task<Text>,
    request: Request<Text>,
    remaining: Seq<Step<Text>>,
    id: u64,
    io: Io,
)
    requires
        io.rest.len() > 0,
        io.rest[0] == ReplyView::Failed(id),
    ensures
        ({
            let run = perform(seq![task(name, request)] + remaining, io);
            &&& run.out == Outcome::<()>::Fail(in_task(name, Error::Failed(id)))
            &&& run.io.asked == io.asked.push(request)
        }),
{
    let steps = seq![task(name, request)] + remaining;
    let run = ask(io, request);
    assert(perform(steps, io) == perform_reply(
        Purpose::Task(name),
        steps.drop_first(),
        io.rest[0],
        run.io,
    ));
}

/// An overlay that cannot be mounted ends everything: the error names its partition, there is no
/// marker and no further partition is dealt with. What was mounted before is left as it is.
pub proof fn failed_overlays_are_named(
    work_base: Text,
    partitions: Seq<PartitionView>,
    i: int,
    id: u64,
    io: Io,
)
    requires
        0 <= i < partitions.len(),
        !overlay_options(work_base, partitions[i]).contains(0),
        io.rest.len() >= 5,
        flag_of(io.rest[0]),
        !flag_of(io.rest[1]),
        io.rest[2] == ReplyView::Done,
        io.rest[3] == ReplyView::Done,
        io.rest[4] == ReplyView::Failed(id),
    ensures
        ({
            let name = partitions[i].name;
            let whole = overlays_from(work_base, partitions, i, io);
            &&& whole.out == Outcome::<()>::Fail(
                in_task(Task::MountOverlay { partition: name }, Error::Failed(id)),
            )
            &&& whole.io.asked == io.asked.push(Request::Exists(device_dir(name))).push(
                Request::Exists(mounted_marker(name)),
            ).push(Request::EnsureDir(own_dir(work_base, name, "upper".spec_bytes()))).push(
                Request::EnsureDir(own_dir(work_base, name, "work".spec_bytes())),
            ).push(
                Request::MountOverlay {
                    target: device_dir(name),
                    options: overlay_options(work_base, partitions[i]),
                },
            )
        }),
{
    reveal(overlays_from);
    let name = partitions[i].name;
    let steps = overlay_steps(work_base, partitions[i]);
    let looked = ask(io, Request::Exists(device_dir(name)));
    let unmarked = ask(looked.io, Request::Exists(mounted_marker(name)));
    let whole = overlays_from(work_base, partitions, i, io);
    assert(whole == overlay_target(work_base, partitions, i, io.rest[0], looked.io));
    assert(whole == overlay_marked(work_base, partitions, i, io.rest[1], unmarked.io));
    let performed = perform(steps, unmarked.io);
    assert(whole == overlays_ready(work_base, partitions, i + 1, performed));
    let request = Request::MountOverlay {
        target: device_dir(name),
        options: overlay_options(work_base, partitions[i]),
    };
    let last = lemma_directories_made(work_base, partitions[i], unmarked.io);
    failed_tasks_are_named(
        Task::MountOverlay { partition: name },
        request,
        seq![attempt(Request::CreateFile(mounted_marker(name)))],
        id,
        last,
    );
}

/// The overlay of a partition counts as mounted even if its marker cannot be made.
pub proof fn markers_may_fail(work_base: Text, partition: PartitionView, io: Io)
    requires
        !overlay_options(work_base, partition).contains(0),
        io.rest.len() >= 4,
        io.rest[0] == ReplyView::Done,
        io.rest[1] == ReplyView::Done,
        io.rest[2] == ReplyView::Done,
    ensures
        perform(overlay_steps(work_base, partition), io).out == Outcome::Done(()),
{
    let steps = overlay_steps(work_base, partition);
    let last = lemma_directories_made(work_base, partition, io);
    let rest = steps.skip(2);
    let marking = rest.drop_first();
    let mounted = ask(last, rest[0]->Ask_0);
    assert(perform(rest, last) == perform_reply(rest[0]->Ask_1, marking, last.rest[0], mounted.io));
    assert(Seq::<Step<Text>>::empty() + marking =~= marking);
    let marked = ask(mounted.io, marking[0]->Ask_0);
    let none = marking.drop_first();
    assert(perform(marking, mounted.io) == perform_reply(
        Purpose::Attempt,
        none,
        mounted.io.rest[0],
        marked.io,
    ));
    assert(Seq::<Step<Text>>::empty() + none =~= Seq::<Step<Text>>::empty());
}

/// How an overlay goes on when its own directories have been made.
proof fn lemma_directories_made(work_base: Text, partition: PartitionView, io: Io) -> (last: Io)
    requires
        !overlay_options(work_base, partition).contains(0),
        io.rest.len() >= 2,
        io.rest[0] == ReplyView::Done,
        io.rest[1] == ReplyView::Done,
    ensures
        last.rest == io.rest.skip(2),
        last.asked == io.asked.push(
            Request::EnsureDir(own_dir(work_base, partition.name, "upper".spec_bytes())),
        ).push(Request::EnsureDir(own_dir(work_base, partition.name, "work".spec_bytes()))),
        overlay_steps(work_base, partition).skip(2) == seq![
            task(
                Task::MountOverlay { partition: partition.name },
                Request::MountOverlay {
                    target: device_dir(partition.name),
                    options: overlay_options(work_base, partition),
                },
            ),
        ] + seq![attempt(Request::CreateFile(mounted_marker(partition.name)))],
        perform(overlay_steps(work_base, partition), io) == perform(
            overlay_steps(work_base, partition).skip(2),
            last,
        ),
{
    let steps = overlay_steps(work_base, partition);
    let first = ask(io, steps[0]->Ask_0);
    let behind = steps.drop_first();
    assert(perform(steps, io) == perform_reply(Purpose::Success, behind, io.rest[0], first.io));
    assert(Seq::<Step<Text>>::empty() + behind =~= behind);
    let second = ask(first.io, behind[0]->Ask_0);
    let last = behind.drop_first();
    assert(perform(behind, first.io) == perform_reply(
        Purpose::Success,
        last,
        first.io.rest[0],
        second.io,
    ));
    assert(Seq::<Step<Text>>::empty() + last =~= last);
    assert(last =~= steps.skip(2));
    assert(second.io.rest =~= io.rest.skip(2));
    second.io
}

} // verus!
