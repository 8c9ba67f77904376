//! How the modules are gone through when the host answers truthfully.

use vstd::prelude::*;
#[allow(unused_imports)]
use vstd::string::StringSliceAdditionalSpecFns;
use vstd::utf8::valid_utf8;

use crate::bytes::joined;
use crate::collect::collected;
use crate::laws::conversation::{lemma_end, lemma_then, lemma_weaken};
use crate::laws::finding::{lemma_truthful_ask, lemma_truthful_parts, truthful, World};
use crate::laws::reading::{
    collected_only_reads, is_host_error, lemma_asked, module_queries, promote_only_reads, queries,
    scan_checked_only_reads, scan_dirs_only_reads, scan_from_only_reads, supported_only_reads,
    takes_part_only_reads,
};
use crate::laws::sources::{
    participants_are_as_found, supported_in, supported_partitions_are_as_found, takes_part_in,
};
use crate::node::{root_node, NodeView};
use crate::protocol::{ask, done, flag_of, listing_of, FileKind, Io, Outcome, Request, Run};
use crate::rules::{device_dir, supported, takes_part};
use crate::scan::{
    builtin_partitions, may_be_other_partition, promote_dir, promote_from, promote_link, promoted,
    scan_checked, scan_collected, scan_dirs, scan_from, scan_listed, scan_looked_at,
    scan_partition, scan_supported, with_partition, Dirs, Found, Scan,
};

verus! {

/// The directory of the module that comes next is taken if the module takes part.
pub proof fn lemma_module_now(world: World, scan: Scan, io: Io)
    requires
        0 <= scan.next < scan.modules.len(),
        scan.modules[scan.next].kind == Ok::<FileKind, u64>(FileKind::Dir),
        valid_utf8(scan.modules[scan.next].name),
        truthful(world, io, scan_from(scan, io)),
    ensures
        ({
            let whole = scan_from(scan, io);
            let run = takes_part(scan.rules, scan.path(), io);
            &&& !(run.out is Fail)
            &&& run.out is Waiting ==> whole.out is Waiting
            &&& run.out matches Outcome::Done(b) ==> {
                &&& b == takes_part_in(world, scan.rules, scan.path())
                &&& truthful(world, run.io, whole)
                &&& whole == (if b {
                    scan_checked(scan, done(run.io, true))
                } else {
                    scan_from(scan.passed(), run.io)
                })
            }
        }),
{
    reveal(scan_from);
    reveal(scan_dirs);
    let q = module_queries();
    let whole = scan_from(scan, io);
    let run = takes_part(scan.rules, scan.path(), io);
    takes_part_only_reads(scan.rules, scan.path(), io);
    lemma_weaken(io, run, queries(), q);
    assert(whole == scan_checked(scan, run));
    match run.out {
        Outcome::Done(b) => {
            if b {
                assert(whole == scan_checked(scan, done(run.io, true)));
                scan_checked_only_reads(scan, run.io);
            } else {
                assert(whole == scan_from(scan.passed(), run.io));
                scan_from_only_reads(scan.passed(), run.io);
            }
            lemma_truthful_parts(world, io, run, whole, q);
            participants_are_as_found(world, scan.rules, scan.path(), io);
        },
        _ => {},
    }
}

/// What a module has for the system partition, added to what is there.
pub open spec fn system_filled(scan: Scan, has_system: bool, io: Io) -> Run<(NodeView, bool)> {
    if has_system {
        collected(scan.found.system, joined(scan.path(), "system".spec_bytes()), io)
    } else {
        done(io, (scan.found.system, false))
    }
}

/// A module that takes part: its files for the system partition are collected, and then its
/// directories are gone through.
pub proof fn lemma_checked_now(world: World, scan: Scan, io: Io)
    requires
        0 <= scan.next < scan.modules.len(),
        truthful(world, io, scan_checked(scan, done(io, true))),
    ensures
        ({
            let whole = scan_checked(scan, done(io, true));
            let request = Request::IsDir(joined(scan.path(), "system".spec_bytes()));
            let looked = ask(io, request);
            let has_system = flag_of(world(request));
            let filled = system_filled(scan, has_system, looked.io);
            &&& looked.out is Waiting ==> whole.out is Waiting
            &&& looked.out is Done ==> {
                &&& truthful(world, looked.io, filled)
                &&& match filled.out {
                    Outcome::Done(f) => {
                        let list = Request::ListDir(scan.path());
                        let listed = ask(filled.io, list);
                        let next = scan.with_system(f.0);
                        &&& listed.out is Waiting ==> whole.out is Waiting
                        &&& listed.out is Done ==> match listing_of(world(list)) {
                            Ok(dirs) => {
                                let d = Dirs { dirs, next: 0, has_file: f.1 };
                                &&& whole == scan_dirs(next, d, listed.io)
                                &&& truthful(world, listed.io, whole)
                            },
                            Err(e) => whole.out == Outcome::<Option<NodeView>>::Fail(e),
                        }
                    },
                    Outcome::Fail(e) => whole.out == Outcome::<Option<NodeView>>::Fail(e),
                    Outcome::Waiting => whole.out is Waiting,
                }
            }
        }),
{
    reveal(scan_dirs);
    let q = module_queries();
    let whole = scan_checked(scan, done(io, true));
    let dir = joined(scan.path(), "system".spec_bytes());
    let request = Request::IsDir(dir);
    let looked = ask(io, request);
    assert(whole == scan_looked_at(scan, looked));
    match looked.out {
        Outcome::Done(reply) => {
            let filled = system_filled(scan, flag_of(reply), looked.io);
            collected_only_reads(scan.found.system, dir, looked.io);
            lemma_end(looked.io, Outcome::Done((scan.found.system, false)), queries());
            lemma_weaken(looked.io, filled, queries(), q);
            assert(whole == scan_collected(scan, filled));
            match filled.out {
                Outcome::Done(f) => {
                    let list = Request::ListDir(scan.path());
                    let listed = ask(filled.io, list);
                    let next = scan.with_system(f.0);
                    assert(whole == scan_listed(next, f.1, listed));
                    if listed.out is Done {
                        match listing_of(listed.out->Done_0) {
                            Ok(dirs) => {
                                let d = Dirs { dirs, next: 0, has_file: f.1 };
                                assert(whole == scan_dirs(next, d, listed.io));
                                scan_dirs_only_reads(next, d, listed.io);
                            },
                            Err(e) => {
                                assert(is_host_error(e));
                                lemma_end(listed.io, Outcome::<Option<NodeView>>::Fail(e), q);
                            },
                        }
                    }
                    lemma_asked(filled.io, list, whole, q);
                    lemma_then(looked.io, filled, whole, q);
                    lemma_truthful_ask(world, io, request, whole, q);
                    lemma_truthful_parts(world, looked.io, filled, whole, q);
                    if listed.out is Done {
                        lemma_truthful_ask(world, filled.io, list, whole, q);
                    }
                },
                _ => {
                    lemma_then(looked.io, filled, whole, q);
                    lemma_truthful_ask(world, io, request, whole, q);
                },
            }
        },
        _ => {},
    }
}

/// A directory of a module that may be that of a partition: its files are collected if the
/// partition is supported.
pub proof fn lemma_dir_now(world: World, scan: Scan, dirs: Dirs, io: Io)
    requires
        0 <= scan.next < scan.modules.len(),
        0 <= dirs.next < dirs.dirs.len(),
        may_be_other_partition(dirs.dirs[dirs.next]),
        truthful(world, io, scan_dirs(scan, dirs, io)),
    ensures
        ({
            let whole = scan_dirs(scan, dirs, io);
            let name = dirs.name();
            let run = supported(scan.rules, name, io);
            let filled = collected(root_node(name), joined(scan.path(), name), run.io);
            &&& !(run.out is Fail)
            &&& run.out is Waiting ==> whole.out is Waiting
            &&& run.out matches Outcome::Done(b) ==> b == supported_in(world, scan.rules, name)
            &&& run.out == Outcome::Done(false) ==> {
                &&& whole == scan_dirs(scan, dirs.passed(false), run.io)
                &&& truthful(world, run.io, whole)
            }
            &&& run.out == Outcome::Done(true) ==> {
                &&& truthful(world, run.io, filled)
                &&& match filled.out {
                    Outcome::Done(f) => {
                        let next = Scan { found: with_partition(scan.found, f.0, f.1), ..scan };
                        &&& whole == scan_dirs(next, dirs.passed(f.1), filled.io)
                        &&& truthful(world, filled.io, whole)
                    },
                    Outcome::Fail(e) => whole.out == Outcome::<Option<NodeView>>::Fail(e),
                    Outcome::Waiting => whole.out is Waiting,
                }
            }
        }),
{
    reveal(scan_dirs);
    let q = module_queries();
    let whole = scan_dirs(scan, dirs, io);
    let name = dirs.name();
    let run = supported(scan.rules, name, io);
    supported_only_reads(scan.rules, name, io);
    lemma_weaken(io, run, queries(), q);
    assert(whole == scan_supported(scan, dirs, run));
    match run.out {
        Outcome::Done(true) => {
            let node = root_node(name);
            let dir = joined(scan.path(), name);
            let filled = collected(node, dir, run.io);
            collected_only_reads(node, dir, run.io);
            lemma_weaken(run.io, filled, queries(), q);
            assert(whole == scan_partition(scan, dirs, filled));
            match filled.out {
                Outcome::Done(f) => {
                    let next = Scan { found: with_partition(scan.found, f.0, f.1), ..scan };
                    assert(whole == scan_dirs(next, dirs.passed(f.1), filled.io));
                    scan_dirs_only_reads(next, dirs.passed(f.1), filled.io);
                    lemma_then(run.io, filled, whole, q);
                    lemma_truthful_parts(world, io, run, whole, q);
                    lemma_truthful_parts(world, run.io, filled, whole, q);
                },
                _ => {
                    lemma_then(run.io, filled, whole, q);
                    lemma_truthful_parts(world, io, run, whole, q);
                },
            }
            supported_partitions_are_as_found(world, scan.rules, name, io);
        },
        Outcome::Done(false) => {
            assert(whole == scan_dirs(scan, dirs.passed(false), run.io));
            scan_dirs_only_reads(scan, dirs.passed(false), run.io);
            lemma_truthful_parts(world, io, run, whole, q);
            supported_partitions_are_as_found(world, scan.rules, name, io);
        },
        _ => {},
    }
}

/// The end of a module's directories, and a directory that is none of a partition.
pub proof fn lemma_other_dir_now(scan: Scan, dirs: Dirs, io: Io)
    requires
        0 <= scan.next < scan.modules.len(),
        0 <= dirs.next,
        dirs.next < dirs.dirs.len() ==> !may_be_other_partition(dirs.dirs[dirs.next]),
    ensures
        scan_dirs(scan, dirs, io) == (if dirs.next < dirs.dirs.len() {
            scan_dirs(scan, dirs.passed(false), io)
        } else {
            scan_from(
                Scan {
                    found: Found { any: scan.found.any || dirs.has_file, ..scan.found },
                    ..scan.passed()
                },
                io,
            )
        }),
{
    reveal(scan_dirs);
    reveal(scan_from);
}

/// Whether the `k`th of the partitions whose files may stand below those for the system partition
/// is one of its own on the device.
pub open spec fn stands_alone(world: World, k: int) -> bool {
    let partition = builtin_partitions()[k];
    &&& flag_of(world(Request::IsDir(device_dir(partition.0))))
    &&& partition.1 ==> flag_of(
        world(Request::IsSymlink(joined("/system".spec_bytes(), partition.0))),
    )
}

/// What was found, with the files for the `k`th partition at the root if it stands alone.
pub open spec fn promoted_in(world: World, k: int, found: Found) -> Found {
    if stands_alone(world, k) {
        promoted(found, builtin_partitions()[k].0)
    } else {
        found
    }
}

/// A partition is taken to the root if it is one of its own on the device.
pub proof fn lemma_promote_now(world: World, k: int, found: Found, io: Io) -> (next: Io)
    requires
        0 <= k < 5,
        truthful(world, io, promote_from(k, found, io)),
    ensures
        ({
            let whole = promote_from(k, found, io);
            ||| whole.out is Waiting
            ||| {
                &&& whole == promote_from(k + 1, promoted_in(world, k, found), next)
                &&& truthful(world, next, whole)
            }
        }),
{
    let q = module_queries();
    let whole = promote_from(k, found, io);
    let partition = builtin_partitions()[k];
    let taken = promoted(found, partition.0);
    let request = Request::IsDir(device_dir(partition.0));
    let run = ask(io, request);
    let link = Request::IsSymlink(joined("/system".spec_bytes(), partition.0));
    let second = ask(run.io, link);
    promote_only_reads(k + 1, found, run.io);
    promote_only_reads(k + 1, found, second.io);
    promote_only_reads(k + 1, taken, run.io);
    promote_only_reads(k + 1, taken, second.io);
    match run.out {
        Outcome::Done(reply) => {
            assert(whole == promote_dir(k, found, reply, run.io));
            if flag_of(reply) && partition.1 {
                match second.out {
                    Outcome::Done(linked) => {
                        assert(whole == promote_link(k, found, linked, second.io));
                        lemma_asked(run.io, link, whole, q);
                        lemma_truthful_ask(world, io, request, whole, q);
                        lemma_truthful_ask(world, run.io, link, whole, q);
                        second.io
                    },
                    _ => io,
                }
            } else {
                lemma_truthful_ask(world, io, request, whole, q);
                run.io
            }
        },
        _ => io,
    }
}

} // verus!
