//! Finding out changes nothing.

use vstd::prelude::*;
#[allow(unused_imports)]
use vstd::string::StringSliceAdditionalSpecFns;
use vstd::utf8::valid_utf8;

use crate::bytes::joined;
use crate::collect::{
    collected, created, created_of, gather, gather_back, gather_into, gather_new,
    marks_opaque, no_gain, replaces, replaces_by, Level,
};
use crate::laws::conversation::{
    lemma_ask, lemma_end, lemma_proceeds, lemma_then, lemma_weaken, proceeds, Limits,
};
use crate::mount::{tmpfs_decision, weigh, weighed, with_skipped};
use crate::node::{
    needs_tmpfs, position, probe_of, root_node, type_of_file, NodeFileType, NodeView,
};
use crate::overlay::{
    partitions_found, search, search_checked, search_dirs, search_listed, search_source,
    search_supported, PartitionView, Search,
};
use crate::protocol::{
    ask, cause, done, flag_of, listing_of, stat_of, still_to_come, Entry, Error, FileKind, Io,
    Outcome, Request, Run, Text,
};
use crate::rules::{
    device_dir, marker_paths, may_be_partition, none_exists, supported, supported_dir, takes_part,
    RulesView,
};
use crate::scan::{
    builtin_partitions, finished, may_be_other_partition, nothing_found, promote_dir, promote_from,
    promoted, scan_checked, scan_collected, scan_dirs, scan_from, scan_listed, scan_looked_at,
    scan_partition, scan_supported, scanned, tree_of, with_partition, Dirs, Found, Scan,
};
use crate::session::{mode_by_overlay, mode_detected, MountMode};

verus! {

/// A request that changes nothing.
pub open spec fn is_query(request: Request<Text>) -> bool {
    match request {
        Request::Exists(_) => true,
        Request::IsDir(_) => true,
        Request::IsSymlink(_) => true,
        Request::ListDir(_) => true,
        Request::Lstat(_) => true,
        Request::Stat(_) => true,
        Request::GetXattr { .. } => true,
        Request::ReadText(_) => true,
        Request::ReadLink(_) => true,
        Request::GetLabel(_) => true,
        _ => false,
    }
}

/// An error that the host caused.
pub open spec fn is_host_error(error: Error<Text>) -> bool {
    cause(error) is Failed || cause(error) is WrongReply
}

/// Nothing is changed, and all errors are the host's.
pub open spec fn queries() -> Limits {
    Limits {
        allowed: |r: Request<Text>| is_query(r),
        excused: |e: Error<Text>| is_host_error(e),
    }
}

/// Nothing is changed, and all errors are the host's or come from the name of a module.
pub open spec fn module_queries() -> Limits {
    Limits {
        allowed: |r: Request<Text>| is_query(r),
        excused: |e: Error<Text>| is_host_error(e) || e is ModuleName,
    }
}

/// A computation that starts with an allowed question and goes on in good order is in good order.
pub proof fn lemma_asked<T>(io: Io, request: Request<Text>, whole: Run<T>, limits: Limits)
    requires
        (limits.allowed)(request),
        ({
            let run = ask(io, request);
            match run.out {
                Outcome::Done(_) => proceeds(run.io, whole, limits),
                _ => whole.io == run.io && whole.out is Waiting,
            }
        }),
    ensures
        proceeds(io, whole, limits),
{
    lemma_ask(io, request, limits);
    lemma_then(io, ask(io, request), whole, limits);
}

/// Finding out whether a directory replaces the device's changes nothing.
pub proof fn replaces_only_reads(path: Text, io: Io)
    ensures
        proceeds(io, replaces(path, io), queries()),
        !(replaces(path, io).out is Fail),
{
    let q = queries();
    let request = Request::GetXattr { path, name: "trusted.overlay.opaque".spec_bytes() };
    let run = ask(io, request);
    match run.out {
        Outcome::Done(reply) => {
            let marker = Request::Exists(joined(path, ".replace".spec_bytes()));
            let next = ask(run.io, marker);
            lemma_end(run.io, Outcome::Done(true), q);
            lemma_end(next.io, Outcome::Done(flag_of(next.out->Done_0)), q);
            if !marks_opaque(reply) {
                lemma_asked(run.io, marker, replaces_by(path, reply, run.io), q);
            }
        },
        _ => {},
    }
    lemma_asked(io, request, replaces(path, io), q);
}

/// Making a node for a file of a module changes nothing and does not fail.
pub proof fn created_only_reads(name: Text, path: Text, io: Io)
    ensures
        proceeds(io, created(name, path, io), queries()),
        !(created(name, path, io).out is Fail),
{
    let q = queries();
    let request = Request::Lstat(path);
    let run = ask(io, request);
    match run.out {
        Outcome::Done(reply) => {
            let whole = created_of(name, path, reply, run.io);
            match stat_of(reply) {
                Ok(metadata) => {
                    if type_of_file(metadata) == NodeFileType::Directory {
                        let check = replaces(path, run.io);
                        replaces_only_reads(path, run.io);
                        match check.out {
                            Outcome::Done(replace) => {
                                lemma_end(check.io, whole.out, q);
                            },
                            _ => {},
                        }
                        lemma_then(run.io, check, whole, q);
                    } else {
                        lemma_end(run.io, whole.out, q);
                    }
                },
                Err(_) => {
                    lemma_end(run.io, whole.out, q);
                },
            }
        },
        _ => {},
    }
    lemma_asked(io, request, created(name, path, io), q);
}

/// Collecting the files of a directory changes nothing.
pub proof fn collected_only_reads(node: NodeView, dir: Text, io: Io)
    ensures
        proceeds(io, collected(node, dir, io), queries()),
    decreases io.rest.len(), 0nat, 0nat,
{
    reveal(collected);
    reveal(gather);
    let q = queries();
    let request = Request::ListDir(dir);
    let run = ask(io, request);
    match run.out {
        Outcome::Done(reply) => match listing_of(reply) {
            Ok(entries) => {
                gather_only_reads(Level { node, dir, entries, next: 0, has_file: false }, run.io);
            },
            Err(e) => {
                lemma_end(run.io, Outcome::<(NodeView, bool)>::Fail(e), q);
            },
        },
        _ => {},
    }
    lemma_asked(io, request, collected(node, dir, io), q);
}

/// Collecting the entries that are still to come changes nothing.
pub proof fn gather_only_reads(level: Level, io: Io)
    ensures
        proceeds(io, gather(level, io), queries()),
    decreases io.rest.len(), 1nat, 4 * level.left(),
{
    reveal(gather);
    let q = queries();
    if level.next < 0 || level.next >= level.entries.len() {
        lemma_end(io, Outcome::Done((level.node, level.has_file)), q);
    } else {
        match position(level.node.children, level.name()) {
            Some(k) => {
                gather_into_only_reads(level, k, io);
            },
            None => {
                let path = joined(level.dir, level.entries[level.next].name);
                let run = created(level.name(), path, io);
                created_only_reads(level.name(), path, io);
                lemma_proceeds(io, run, q);
                match run.out {
                    Outcome::Done(None) => {
                        gather_only_reads(level.passed(false), run.io);
                    },
                    Outcome::Done(Some(node)) => {
                        gather_into_only_reads(
                            level.with(level.node.children.push(node)),
                            level.node.children.len() as int,
                            run.io,
                        );
                    },
                    _ => {},
                }
                lemma_then(io, run, gather_new(level, run), q);
            },
        }
    }
}

/// Going on with the child for an entry changes nothing.
pub proof fn gather_into_only_reads(level: Level, k: int, io: Io)
    requires
        0 <= level.next < level.entries.len(),
    ensures
        proceeds(io, gather_into(level, k, io), queries()),
    decreases io.rest.len(), 1nat, 4 * level.left() - 2,
{
    reveal(gather);
    reveal(collected);
    let q = queries();
    let child = level.node.children[k];
    if child.file_type == NodeFileType::Directory {
        let run = collected(child, joined(level.dir, child.name), io);
        collected_only_reads(child, joined(level.dir, child.name), io);
        lemma_proceeds(io, run, q);
        assert(no_gain(io, run) == run);
        let back = level.with(level.node.children.remove(k)).passed(false);
        match run.out {
            Outcome::Done(filled) => {
                let next = back.with(back.node.children.insert(k, filled.0));
                gather_only_reads(
                    Level { has_file: next.has_file || filled.1 || filled.0.replace, ..next },
                    run.io,
                );
            },
            _ => {},
        }
        lemma_then(io, run, gather_back(back, k, run), q);
    } else {
        gather_only_reads(level.passed(true), io);
    }
}

/// Looking for files that mark a module changes nothing and does not fail.
pub proof fn none_exists_only_reads(paths: Seq<Text>, i: int, io: Io)
    ensures
        proceeds(io, none_exists(paths, i, io), queries()),
        !(none_exists(paths, i, io).out is Fail),
    decreases paths.len() - i,
{
    let q = queries();
    if i < 0 || i >= paths.len() {
        lemma_end(io, Outcome::Done(true), q);
    } else {
        let request = Request::Exists(paths[i]);
        let run = ask(io, request);
        match run.out {
            Outcome::Done(reply) => {
                if flag_of(reply) {
                    lemma_end(run.io, Outcome::Done(false), q);
                } else {
                    none_exists_only_reads(paths, i + 1, run.io);
                }
            },
            _ => {},
        }
        lemma_asked(io, request, none_exists(paths, i, io), q);
    }
}

/// Finding out whether a module takes part changes nothing and does not fail.
pub proof fn takes_part_only_reads(rules: RulesView, path: Text, io: Io)
    ensures
        proceeds(io, takes_part(rules, path, io), queries()),
        !(takes_part(rules, path, io).out is Fail),
{
    let q = queries();
    let request = Request::Exists(joined(path, "module.prop".spec_bytes()));
    let run = ask(io, request);
    match run.out {
        Outcome::Done(reply) => {
            if flag_of(reply) {
                none_exists_only_reads(marker_paths(rules, path), 0, run.io);
            } else {
                lemma_end(run.io, Outcome::Done(false), q);
            }
        },
        _ => {},
    }
    lemma_asked(io, request, takes_part(rules, path, io), q);
}

/// Finding out whether the device has a partition changes nothing and does not fail.
pub proof fn supported_only_reads(rules: RulesView, name: Text, io: Io)
    ensures
        proceeds(io, supported(rules, name, io), queries()),
        !(supported(rules, name, io).out is Fail),
{
    let q = queries();
    if !rules.supported_partitions.contains(name) {
        lemma_end(io, Outcome::Done(false), q);
    } else {
        let request = Request::IsDir(device_dir(name));
        let run = ask(io, request);
        match run.out {
            Outcome::Done(reply) => {
                let link = Request::IsSymlink(device_dir(name));
                let next = ask(run.io, link);
                lemma_end(run.io, Outcome::Done(true), q);
                lemma_end(next.io, Outcome::Done(flag_of(next.out->Done_0)), q);
                if !flag_of(reply) {
                    lemma_asked(run.io, link, supported_dir(name, reply, run.io), q);
                }
            },
            _ => {},
        }
        lemma_asked(io, request, supported(rules, name, io), q);
    }
}

/// Collecting the files of all modules changes nothing. It fails only where the host does, or
/// where the name of a module is not text.
pub proof fn scanned_only_reads(rules: RulesView, io: Io)
    ensures
        proceeds(io, scanned(rules, io), module_queries()),
{
    let q = module_queries();
    let request = Request::ListDir(rules.module_dir);
    let run = ask(io, request);
    match run.out {
        Outcome::Done(reply) => match listing_of(reply) {
            Ok(modules) => {
                scan_from_only_reads(
                    Scan { rules, modules, next: 0, found: nothing_found() },
                    run.io,
                );
            },
            Err(e) => {
                lemma_end(run.io, Outcome::<Option<NodeView>>::Fail(e), q);
            },
        },
        _ => {},
    }
    lemma_asked(io, request, scanned(rules, io), q);
}

/// Going through the modules changes nothing.
pub proof fn scan_from_only_reads(scan: Scan, io: Io)
    ensures
        proceeds(io, scan_from(scan, io), module_queries()),
    decreases scan.left(), 10nat, 0nat,
{
    reveal(scan_from);
    reveal(scan_dirs);
    let q = module_queries();
    if scan.next < 0 || scan.next >= scan.modules.len() {
        finished_only_reads(scan.found, io);
    } else {
        match scan.modules[scan.next].kind {
            Err(id) => {
                lemma_end(io, Outcome::<Option<NodeView>>::Fail(Error::Failed(id)), q);
            },
            Ok(FileKind::Dir) => {
                let name = scan.modules[scan.next].name;
                if valid_utf8(name) {
                    let run = takes_part(scan.rules, scan.path(), io);
                    takes_part_only_reads(scan.rules, scan.path(), io);
                    lemma_weaken(io, run, queries(), q);
                    match run.out {
                        Outcome::Done(true) => {
                            scan_checked_only_reads(scan, run.io);
                        },
                        Outcome::Done(false) => {
                            scan_from_only_reads(scan.passed(), run.io);
                        },
                        _ => {},
                    }
                    lemma_then(io, run, scan_checked(scan, run), q);
                } else {
                    lemma_end(io, Outcome::<Option<NodeView>>::Fail(Error::ModuleName(name)), q);
                }
            },
            Ok(_) => {
                scan_from_only_reads(scan.passed(), io);
            },
        }
    }
}

/// Collecting the files of a module changes nothing.
pub proof fn scan_checked_only_reads(scan: Scan, io: Io)
    requires
        0 <= scan.next < scan.modules.len(),
    ensures
        proceeds(io, scan_checked(scan, done(io, true)), module_queries()),
    decreases scan.left(), 9nat, 0nat,
{
    reveal(scan_from);
    reveal(scan_dirs);
    let q = module_queries();
    let dir = joined(scan.path(), "system".spec_bytes());
    let request = Request::IsDir(dir);
    let run = ask(io, request);
    match run.out {
        Outcome::Done(reply) => {
            let filled = if flag_of(reply) {
                collected(scan.found.system, dir, run.io)
            } else {
                done(run.io, (scan.found.system, false))
            };
            collected_only_reads(scan.found.system, dir, run.io);
            lemma_end(run.io, Outcome::Done((scan.found.system, false)), queries());
            lemma_weaken(run.io, filled, queries(), q);
            match filled.out {
                Outcome::Done(f) => {
                    let list = Request::ListDir(scan.path());
                    let listed = ask(filled.io, list);
                    let next = scan.with_system(f.0);
                    match listed.out {
                        Outcome::Done(reply) => match listing_of(reply) {
                            Ok(dirs) => {
                                scan_dirs_only_reads(
                                    next,
                                    Dirs { dirs, next: 0, has_file: f.1 },
                                    listed.io,
                                );
                            },
                            Err(e) => {
                                lemma_end(listed.io, Outcome::<Option<NodeView>>::Fail(e), q);
                            },
                        },
                        _ => {},
                    }
                    lemma_asked(filled.io, list, scan_listed(next, f.1, listed), q);
                },
                _ => {},
            }
            lemma_then(run.io, filled, scan_collected(scan, filled), q);
        },
        _ => {},
    }
    lemma_asked(io, request, scan_looked_at(scan, run), q);
}

/// Going through the directories of a module changes nothing.
pub proof fn scan_dirs_only_reads(scan: Scan, dirs: Dirs, io: Io)
    requires
        0 <= scan.next < scan.modules.len(),
    ensures
        proceeds(io, scan_dirs(scan, dirs, io), module_queries()),
    decreases scan.left(), 5nat, 3 * dirs.left(),
{
    reveal(scan_from);
    reveal(scan_dirs);
    let q = module_queries();
    if dirs.next < 0 || dirs.next >= dirs.dirs.len() {
        scan_from_only_reads(
            Scan {
                found: Found { any: scan.found.any || dirs.has_file, ..scan.found },
                ..scan.passed()
            },
            io,
        );
    } else if may_be_other_partition(dirs.dirs[dirs.next]) {
        let run = supported(scan.rules, dirs.name(), io);
        supported_only_reads(scan.rules, dirs.name(), io);
        lemma_weaken(io, run, queries(), q);
        match run.out {
            Outcome::Done(true) => {
                let node = root_node(dirs.name());
                let dir = joined(scan.path(), dirs.name());
                let filled = collected(node, dir, run.io);
                collected_only_reads(node, dir, run.io);
                lemma_weaken(run.io, filled, queries(), q);
                match filled.out {
                    Outcome::Done(f) => {
                        scan_dirs_only_reads(
                            Scan { found: with_partition(scan.found, f.0, f.1), ..scan },
                            dirs.passed(f.1),
                            filled.io,
                        );
                    },
                    _ => {},
                }
                lemma_then(run.io, filled, scan_partition(scan, dirs, filled), q);
            },
            Outcome::Done(false) => {
                scan_dirs_only_reads(scan, dirs.passed(false), run.io);
            },
            _ => {},
        }
        lemma_then(io, run, scan_supported(scan, dirs, run), q);
    } else {
        scan_dirs_only_reads(scan, dirs.passed(false), io);
    }
}

/// Making the tree changes nothing.
proof fn finished_only_reads(found: Found, io: Io)
    ensures
        proceeds(io, finished(found, io), module_queries()),
{
    if found.any {
        promote_only_reads(0, found, io);
    } else {
        lemma_end(io, Outcome::<Option<NodeView>>::Done(None), module_queries());
    }
}

/// Taking partitions to the root of the tree changes nothing on the device.
pub proof fn promote_only_reads(k: int, found: Found, io: Io)
    ensures
        proceeds(io, promote_from(k, found, io), module_queries()),
    decreases 5 - k,
{
    let q = module_queries();
    if k < 0 || k >= 5 {
        lemma_end(io, Outcome::Done(Some(tree_of(found))), q);
    } else {
        let partition = builtin_partitions()[k];
        let request = Request::IsDir(device_dir(partition.0));
        let run = ask(io, request);
        match run.out {
            Outcome::Done(reply) => {
                let link = Request::IsSymlink(joined("/system".spec_bytes(), partition.0));
                let next = ask(run.io, link);
                promote_only_reads(k + 1, found, run.io);
                promote_only_reads(k + 1, found, next.io);
                promote_only_reads(k + 1, promoted(found, partition.0), run.io);
                promote_only_reads(k + 1, promoted(found, partition.0), next.io);
                if flag_of(reply) && partition.1 {
                    lemma_asked(run.io, link, promote_dir(k, found, reply, run.io), q);
                }
            },
            _ => {},
        }
        lemma_asked(io, request, promote_from(k, found, io), q);
    }
}

/// Listing the directories that modules have for partitions changes nothing. It fails only where
/// the host does, or where the name of a module is not text.
pub proof fn partitions_found_only_reads(rules: RulesView, io: Io)
    ensures
        proceeds(io, partitions_found(rules, io), module_queries()),
{
    let q = module_queries();
    let request = Request::ListDir(rules.module_dir);
    let run = ask(io, request);
    match run.out {
        Outcome::Done(reply) => match listing_of(reply) {
            Ok(modules) => {
                search_only_reads(
                    Search { rules, modules, next: 0, partitions: Seq::empty() },
                    run.io,
                );
            },
            Err(e) => {
                lemma_end(run.io, Outcome::<Option<Seq<PartitionView>>>::Fail(e), q);
            },
        },
        _ => {},
    }
    lemma_asked(io, request, partitions_found(rules, io), q);
}

/// Going through the modules for their directories changes nothing.
pub proof fn search_only_reads(s: Search, io: Io)
    ensures
        proceeds(io, search(s, io), module_queries()),
    decreases s.left(), 10nat, 0nat,
{
    reveal(search);
    reveal(search_dirs);
    let q = module_queries();
    if s.next < 0 || s.next >= s.modules.len() {
        lemma_end(io, search(s, io).out, q);
    } else {
        match s.modules[s.next].kind {
            Err(id) => {
                lemma_end(io, Outcome::<Option<Seq<PartitionView>>>::Fail(Error::Failed(id)), q);
            },
            Ok(FileKind::Dir) => {
                if valid_utf8(s.module()) {
                    let run = takes_part(s.rules, s.path(), io);
                    takes_part_only_reads(s.rules, s.path(), io);
                    lemma_weaken(io, run, queries(), q);
                    match run.out {
                        Outcome::Done(true) => {
                            let list = Request::ListDir(s.path());
                            let listed = ask(run.io, list);
                            match listed.out {
                                Outcome::Done(reply) => match listing_of(reply) {
                                    Ok(dirs) => {
                                        search_dirs_only_reads(s, dirs, 0, listed.io);
                                    },
                                    Err(e) => {
                                        lemma_end(
                                            listed.io,
                                            Outcome::<Option<Seq<PartitionView>>>::Fail(e),
                                            q,
                                        );
                                    },
                                },
                                _ => {},
                            }
                            lemma_asked(run.io, list, search_listed(s, listed), q);
                        },
                        Outcome::Done(false) => {
                            search_only_reads(s.passed(), run.io);
                        },
                        _ => {},
                    }
                    lemma_then(io, run, search_checked(s, run), q);
                } else {
                    lemma_end(
                        io,
                        Outcome::<Option<Seq<PartitionView>>>::Fail(Error::ModuleName(s.module())),
                        q,
                    );
                }
            },
            Ok(_) => {
                search_only_reads(s.passed(), io);
            },
        }
    }
}

/// Going through the directories of one module changes nothing.
pub proof fn search_dirs_only_reads(s: Search, dirs: Seq<Entry<Text>>, j: int, io: Io)
    requires
        0 <= s.next < s.modules.len(),
    ensures
        proceeds(io, search_dirs(s, dirs, j, io), module_queries()),
    decreases s.left(), 7nat, 3 * still_to_come(dirs, j),
{
    reveal(search);
    reveal(search_dirs);
    let q = module_queries();
    if j < 0 || j >= dirs.len() {
        search_only_reads(s.passed(), io);
    } else if may_be_partition(dirs[j]) {
        let run = supported(s.rules, dirs[j].name, io);
        supported_only_reads(s.rules, dirs[j].name, io);
        lemma_weaken(io, run, queries(), q);
        match run.out {
            Outcome::Done(true) => {
                let request = Request::IsDir(joined(s.path(), dirs[j].name));
                let next = ask(run.io, request);
                search_dirs_only_reads(s.with(dirs[j].name), dirs, j + 1, next.io);
                search_dirs_only_reads(s, dirs, j + 1, next.io);
                lemma_asked(run.io, request, search_source(s, dirs, j, next), q);
            },
            Outcome::Done(false) => {
                search_dirs_only_reads(s, dirs, j + 1, run.io);
            },
            _ => {},
        }
        lemma_then(io, run, search_supported(s, dirs, j, run), q);
    } else {
        search_dirs_only_reads(s, dirs, j + 1, io);
    }
}

/// Holding children against the device's files changes nothing and does not fail.
pub proof fn weighing_only_reads(path: Text, node: NodeView, i: int, io: Io)
    ensures
        proceeds(io, weigh(path, node, i, io), queries()),
        !(weigh(path, node, i, io).out is Fail),
    decreases node.children.len() - i,
{
    let q = queries();
    let whole = weigh(path, node, i, io);
    if i < 0 || i >= node.children.len() {
        lemma_end(io, Outcome::Done((false, node)), q);
    } else {
        let child = node.children[i];
        let skipped = with_skipped(node, i);
        match probe_of(child.file_type, joined(path, child.name)) {
            None => {
                assert(whole == weighed(path, node, i, true, io));
                weighing_only_reads(path, skipped, i + 1, io);
                lemma_end(io, Outcome::Done((true, node)), q);
            },
            Some(request) => {
                let run = ask(io, request);
                weighing_only_reads(path, skipped, i + 1, run.io);
                weighing_only_reads(path, node, i + 1, run.io);
                lemma_end(run.io, Outcome::Done((true, node)), q);
                match run.out {
                    Outcome::Done(reply) => {
                        let needed = needs_tmpfs(child.file_type, reply);
                        assert(whole == weighed(path, node, i, needed, run.io));
                    },
                    _ => {},
                }
                lemma_asked(io, request, whole, q);
            },
        }
    }
}

/// Deciding whether a directory is built anew changes nothing and does not fail.
pub proof fn decisions_only_read(path: Text, node: NodeView, has_tmpfs: bool, io: Io)
    ensures
        proceeds(io, tmpfs_decision(path, node, has_tmpfs, io), queries()),
        !(tmpfs_decision(path, node, has_tmpfs, io).out is Fail),
{
    lemma_end(io, Outcome::Done((false, node)), queries());
    lemma_end(io, Outcome::Done((true, node)), queries());
    weighing_only_reads(path, node, 0, io);
}

/// Finding out how modules are mounted changes nothing and does not fail.
pub proof fn mode_detected_only_reads(overlay_flag: Text, magic_flag: Text, io: Io)
    ensures
        proceeds(io, mode_detected(overlay_flag, magic_flag, io), queries()),
        !(mode_detected(overlay_flag, magic_flag, io).out is Fail),
{
    let q = queries();
    let request = Request::Exists(overlay_flag);
    let run = ask(io, request);
    match run.out {
        Outcome::Done(reply) => {
            let magic = Request::Exists(magic_flag);
            let next = ask(run.io, magic);
            lemma_end(run.io, Outcome::Done(MountMode::OverlayFs), q);
            lemma_end(next.io, Outcome::Done(MountMode::Magic), q);
            if !flag_of(reply) {
                lemma_asked(run.io, magic, mode_by_overlay(magic_flag, reply, run.io), q);
            }
        },
        _ => {},
    }
    lemma_asked(io, request, mode_detected(overlay_flag, magic_flag, io), q);
}

} // verus!
