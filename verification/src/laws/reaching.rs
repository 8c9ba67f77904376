//! Going through the modules comes to its end unless something cannot be read.

use vstd::prelude::*;
#[allow(unused_imports)]
use vstd::string::StringSliceAdditionalSpecFns;
use vstd::utf8::valid_utf8;

use crate::bytes::joined;
use crate::collect::{
    collected, created, gather, gather_back, gather_into, gather_new, lemma_collected_gains_nothing,
    lemma_created_gains_nothing, no_gain, Level,
};
use crate::laws::conversation::{lemma_end, lemma_weaken};
use crate::laws::device::{listed, listings_are_taken_as_they_are};
use crate::laws::finding::{lemma_truthful_ask, lemma_truthful_parts, truthful, World};
use crate::laws::reading::{
    collected_only_reads, created_only_reads, gather_into_only_reads, gather_only_reads,
    lemma_asked, module_queries, queries, scan_from_only_reads, search_dirs_only_reads,
    search_only_reads, supported_only_reads, takes_part_only_reads,
};
use crate::laws::scanning::{
    lemma_checked_now, lemma_dir_now, lemma_module_now, lemma_other_dir_now, lemma_promote_now,
    promoted_in, system_filled,
};
use crate::node::{lemma_position, position, root_node, NodeFileType, NodeView};
use crate::overlay::{
    partitions_found, search, search_checked, search_dirs, search_listed, search_source,
    search_supported, Search,
};
use crate::protocol::{
    ask, done, flag_of, listing_of, readable, still_to_come, Entry, Error, FileKind, Io, Outcome,
    ReplyView, Request, Text,
};
use crate::rules::{may_be_partition, supported, takes_part, RulesView};
use crate::scan::{
    may_be_other_partition, nothing_found, promote_from, scan_checked, scan_dirs, scan_from,
    scanned, with_partition, Dirs, Found, Scan,
};

verus! {

/// The host lists every directory.
pub open spec fn lists_all(world: World) -> bool {
    forall|p: Text| #[trigger] world(Request::ListDir(p)) is Listing
}

/// A module can be gone through: the host can tell its kind, and if it is a directory its name is
/// text.
pub open spec fn fine_module(module: Entry<Text>) -> bool {
    &&& module.kind is Ok
    &&& module.kind == Ok::<FileKind, u64>(FileKind::Dir) ==> valid_utf8(module.name)
}

/// All modules from the one at `i` on can be gone through.
spec fn all_fine(modules: Seq<Entry<Text>>, i: int) -> bool {
    forall|k: int| i <= k < modules.len() ==> fine_module(#[trigger] modules[k])
}

/// All modules that the host lists can be gone through.
pub open spec fn fine_modules(world: World, rules: RulesView) -> bool {
    forall|k: int|
        (#[trigger] listed(world, rules.module_dir, k)) matches Some(module) ==> fine_module(module)
}

/// What the host lists can be gone through if what was read of it can.
proof fn lemma_fine_modules(world: World, rules: RulesView)
    requires
        world(Request::ListDir(rules.module_dir)) is Listing,
    ensures
        ({
            let modules = readable(world(Request::ListDir(rules.module_dir))->Listing_0);
            fine_modules(world, rules) <==> all_fine(modules, 0)
        }),
{
    let modules = readable(world(Request::ListDir(rules.module_dir))->Listing_0);
    listings_are_taken_as_they_are(world, rules.module_dir);
    assert(listing_of(world(Request::ListDir(rules.module_dir)))->Ok_0 == modules);
    if fine_modules(world, rules) {
        assert forall|k: int| 0 <= k < modules.len() implies fine_module(
            #[trigger] modules[k],
        ) by {
            let i = choose|i: int| #[trigger]
                listed(world, rules.module_dir, i) == Some(modules[k]);
            assert(listed(world, rules.module_dir, i) is Some);
        }
    }
    if all_fine(modules, 0) {
        assert forall|k: int| (#[trigger] listed(world, rules.module_dir, k)) is Some implies
            fine_module(listed(world, rules.module_dir, k)->0) by {
            let module = listed(world, rules.module_dir, k)->0;
            let i = choose|i: int| 0 <= i < modules.len() && modules[i] == module;
            assert(fine_module(modules[i]));
        }
    }
}

/// Where every directory can be listed, collecting a module's files does not fail.
pub proof fn collecting_fails_only_unlisted(world: World, node: NodeView, dir: Text, io: Io)
    requires
        lists_all(world),
        truthful(world, io, collected(node, dir, io)),
    ensures
        !(collected(node, dir, io).out is Fail),
    decreases io.rest.len(), 0nat, 0nat,
{
    reveal(collected);
    reveal(gather);
    let whole = collected(node, dir, io);
    let request = Request::ListDir(dir);
    let run = ask(io, request);
    if run.out is Done {
        let reply = io.rest[0];
        if let ReplyView::Listing(l) = reply {
            let level = Level { node, dir, entries: readable(l), next: 0, has_file: false };
            assert(whole == gather(level, run.io));
            gather_only_reads(level, run.io);
            lemma_truthful_ask(world, io, request, whole, queries());
            lemma_gathering_does_not_fail(world, level, run.io);
        } else {
            assert(whole.io.asked[io.asked.len() as int] == request);
            assert(world(request) is Listing);
        }
    }
}

/// Collecting the entries that are still to come does not fail.
proof fn lemma_gathering_does_not_fail(world: World, level: Level, io: Io)
    requires
        lists_all(world),
        0 <= level.next,
        truthful(world, io, gather(level, io)),
    ensures
        !(gather(level, io).out is Fail),
    decreases io.rest.len(), 1nat, 4 * level.left(),
{
    reveal(gather);
    let whole = gather(level, io);
    if level.next < level.entries.len() {
        lemma_position(level.node.children, level.name());
        match position(level.node.children, level.name()) {
            Some(k) => {
                assert(whole == gather_into(level, k, io));
                lemma_filling_does_not_fail(world, level, k, io);
            },
            None => {
                let path = joined(level.dir, level.entries[level.next].name);
                let run = created(level.name(), path, io);
                assert(whole == gather_new(level, run));
                created_only_reads(level.name(), path, io);
                lemma_created_gains_nothing(level.name(), path, io);
                match run.out {
                    Outcome::Done(None) => {
                        let next = level.passed(false);
                        assert(whole == gather(next, run.io));
                        gather_only_reads(next, run.io);
                        lemma_truthful_parts(world, io, run, whole, queries());
                        lemma_gathering_does_not_fail(world, next, run.io);
                    },
                    Outcome::Done(Some(child)) => {
                        let k = level.node.children.len() as int;
                        let next = level.with(level.node.children.push(child));
                        assert(whole == gather_into(next, k, run.io));
                        gather_into_only_reads(next, k, run.io);
                        lemma_truthful_parts(world, io, run, whole, queries());
                        lemma_filling_does_not_fail(world, next, k, run.io);
                    },
                    _ => {},
                }
            },
        }
    }
}

/// Going on with the child for an entry does not fail.
proof fn lemma_filling_does_not_fail(world: World, level: Level, k: int, io: Io)
    requires
        lists_all(world),
        0 <= level.next < level.entries.len(),
        truthful(world, io, gather_into(level, k, io)),
    ensures
        !(gather_into(level, k, io).out is Fail),
    decreases io.rest.len(), 1nat, 4 * level.left() - 2,
{
    reveal(gather);
    reveal(collected);
    let whole = gather_into(level, k, io);
    let child = level.node.children[k];
    if child.file_type == NodeFileType::Directory {
        let dir = joined(level.dir, child.name);
        let run = collected(child, dir, io);
        let back = level.with(level.node.children.remove(k)).passed(false);
        collected_only_reads(child, dir, io);
        lemma_collected_gains_nothing(child, dir, io);
        assert(no_gain(io, run) == run);
        assert(whole == gather_back(back, k, run));
        match run.out {
            Outcome::Done(filled) => {
                let next = back.with(back.node.children.insert(k, filled.0));
                let has_file = next.has_file || filled.1 || filled.0.replace;
                let next = Level { has_file, ..next };
                assert(whole == gather(next, run.io));
                gather_only_reads(next, run.io);
                lemma_truthful_parts(world, io, run, whole, queries());
                lemma_gathering_does_not_fail(world, next, run.io);
            },
            _ => {
                assert(truthful(world, io, run));
                collecting_fails_only_unlisted(world, child, dir, io);
            },
        }
    } else {
        assert(whole == gather(level.passed(true), io));
        lemma_gathering_does_not_fail(world, level.passed(true), io);
    }
}

/// Why a module cannot be gone through.
pub open spec fn trouble(module: Entry<Text>) -> Error<Text> {
    match module.kind {
        Err(id) => Error::Failed(id),
        Ok(_) => Error::ModuleName(module.name),
    }
}

/// The first module from `i` on that cannot be gone through is the one at `k`.
pub open spec fn first_trouble(modules: Seq<Entry<Text>>, i: int, k: int) -> bool {
    &&& i <= k < modules.len()
    &&& !fine_module(modules[k])
    &&& forall|j: int| i <= j < k ==> fine_module(#[trigger] modules[j])
}

/// How far the modules from some point on are gone through: to the end only if all of them can be,
/// and surely so where every directory can be listed. Otherwise the first one that cannot be tells
/// the error.
spec fn goes_through<T>(world: World, modules: Seq<Entry<Text>>, i: int, out: Outcome<T>) -> bool {
    &&& out is Done ==> all_fine(modules, i)
    &&& lists_all(world) && all_fine(modules, i) ==> !(out is Fail)
    &&& lists_all(world) && out is Fail ==> forall|k: int| #[trigger]
        first_trouble(modules, i, k) ==> out == Outcome::<T>::Fail(trouble(modules[k]))
}

/// What holds of a module and of those behind it holds from it on.
proof fn lemma_goes_through<T>(
    world: World,
    modules: Seq<Entry<Text>>,
    i: int,
    out: Outcome<T>,
)
    requires
        0 <= i < modules.len(),
        fine_module(modules[i]),
        goes_through(world, modules, i + 1, out),
    ensures
        goes_through(world, modules, i, out),
{
    if out is Done {
        assert forall|k: int| i <= k < modules.len() implies fine_module(
            #[trigger] modules[k],
        ) by {}
    }
    if lists_all(world) && out is Fail {
        assert forall|k: int| #[trigger] first_trouble(modules, i, k) implies out == Outcome::<
            T,
        >::Fail(trouble(modules[k])) by {
            assert(first_trouble(modules, i + 1, k));
        }
    }
}

/// Where not all modules can be gone through, there is a first one that cannot.
proof fn lemma_first_trouble(modules: Seq<Entry<Text>>, i: int) -> (k: int)
    requires
        0 <= i,
        !all_fine(modules, i),
    ensures
        first_trouble(modules, i, k),
    decreases modules.len() - i,
{
    if i < modules.len() && fine_module(modules[i]) {
        assert(!all_fine(modules, i + 1)) by {
            if all_fine(modules, i + 1) {
                assert forall|j: int| i <= j < modules.len() implies fine_module(
                    #[trigger] modules[j],
                ) by {}
            }
        }
        let k = lemma_first_trouble(modules, i + 1);
        assert forall|j: int| i <= j < k implies fine_module(#[trigger] modules[j]) by {}
        k
    } else {
        i
    }
}

/// A module that cannot be gone through ends everything.
proof fn lemma_stops<T>(world: World, modules: Seq<Entry<Text>>, i: int, out: Outcome<T>)
    requires
        0 <= i < modules.len(),
        !fine_module(modules[i]),
        out == Outcome::<T>::Fail(trouble(modules[i])),
    ensures
        goes_through(world, modules, i, out),
{
    assert forall|k: int| #[trigger] first_trouble(modules, i, k) implies out == Outcome::<
        T,
    >::Fail(trouble(modules[k])) by {
        if k > i {
            assert(fine_module(modules[i]));
        }
    }
}

/// How far the modules that are still to come are gone through.
proof fn lemma_scan_goes_through(world: World, scan: Scan, io: Io)
    requires
        0 <= scan.next,
        truthful(world, io, scan_from(scan, io)),
    ensures
        goes_through(world, scan.modules, scan.next, scan_from(scan, io).out),
    decreases scan.left(), 10nat, 0nat,
{
    let whole = scan_from(scan, io);
    let next = scan.passed();
    if scan.next >= scan.modules.len() {
        reveal(scan_from);
        if scan.found.any {
            lemma_promoting_does_not_fail(world, 0, scan.found, io);
        }
    } else {
        let module = scan.modules[scan.next];
        match module.kind {
            Err(id) => {
                assert(whole.out == Outcome::<Option<NodeView>>::Fail(Error::Failed(id))) by {
                    reveal(scan_from);
                }
                lemma_stops(world, scan.modules, scan.next, whole.out);
            },
            Ok(FileKind::Dir) => {
                if valid_utf8(module.name) {
                    lemma_module_now(world, scan, io);
                    let run = takes_part(scan.rules, scan.path(), io);
                    match run.out {
                        Outcome::Done(true) => {
                            lemma_module_goes_through(world, scan, run.io);
                        },
                        Outcome::Done(false) => {
                            lemma_scan_goes_through(world, next, run.io);
                        },
                        _ => {},
                    }
                    if !(whole.out is Waiting) {
                        lemma_goes_through(world, scan.modules, scan.next, whole.out);
                    }
                } else {
                    assert(whole.out == Outcome::<Option<NodeView>>::Fail(
                        Error::ModuleName(module.name),
                    )) by {
                        reveal(scan_from);
                    }
                    lemma_stops(world, scan.modules, scan.next, whole.out);
                }
            },
            Ok(_) => {
                assert(whole == scan_from(next, io)) by {
                    reveal(scan_from);
                }
                lemma_scan_goes_through(world, next, io);
                lemma_goes_through(world, scan.modules, scan.next, whole.out);
            },
        }
    }
}

/// How far the modules behind one that takes part are gone through.
proof fn lemma_module_goes_through(world: World, scan: Scan, io: Io)
    requires
        0 <= scan.next < scan.modules.len(),
        truthful(world, io, scan_checked(scan, done(io, true))),
    ensures
        goes_through(
            world,
            scan.modules,
            scan.next + 1,
            scan_checked(scan, done(io, true)).out,
        ),
    decreases scan.left(), 9nat, 0nat,
{
    let request = Request::IsDir(joined(scan.path(), "system".spec_bytes()));
    let looked = ask(io, request);
    let filled = system_filled(scan, flag_of(world(request)), looked.io);
    lemma_checked_now(world, scan, io);
    if looked.out is Done {
        if lists_all(world) && flag_of(world(request)) {
            collecting_fails_only_unlisted(
                world,
                scan.found.system,
                joined(scan.path(), "system".spec_bytes()),
                looked.io,
            );
        }
        match filled.out {
            Outcome::Done(f) => {
                let list = Request::ListDir(scan.path());
                let listing = ask(filled.io, list);
                if listing.out is Done {
                    match listing_of(world(list)) {
                        Ok(dirs) => {
                            let d = Dirs { dirs, next: 0, has_file: f.1 };
                            lemma_dirs_go_through(world, scan.with_system(f.0), d, listing.io);
                        },
                        Err(_) => {
                            assert(!(world(list) is Listing));
                        },
                    }
                }
            },
            _ => {},
        }
    }
}

/// How far the modules behind one whose directories are gone through are.
proof fn lemma_dirs_go_through(world: World, scan: Scan, dirs: Dirs, io: Io)
    requires
        0 <= scan.next < scan.modules.len(),
        0 <= dirs.next <= dirs.dirs.len(),
        truthful(world, io, scan_dirs(scan, dirs, io)),
    ensures
        goes_through(world, scan.modules, scan.next + 1, scan_dirs(scan, dirs, io).out),
    decreases scan.left(), 5nat, 3 * dirs.left(),
{
    if dirs.next < dirs.dirs.len() && may_be_other_partition(dirs.dirs[dirs.next]) {
        let name = dirs.name();
        let dir = joined(scan.path(), name);
        let run = supported(scan.rules, name, io);
        lemma_dir_now(world, scan, dirs, io);
        match run.out {
            Outcome::Done(true) => {
                let filled = collected(root_node(name), dir, run.io);
                if lists_all(world) {
                    collecting_fails_only_unlisted(world, root_node(name), dir, run.io);
                }
                match filled.out {
                    Outcome::Done(f) => {
                        let next = Scan { found: with_partition(scan.found, f.0, f.1), ..scan };
                        lemma_dirs_go_through(world, next, dirs.passed(f.1), filled.io);
                    },
                    _ => {},
                }
            },
            Outcome::Done(false) => {
                lemma_dirs_go_through(world, scan, dirs.passed(false), run.io);
            },
            _ => {},
        }
    } else {
        lemma_other_dir_now(scan, dirs, io);
        if dirs.next < dirs.dirs.len() {
            lemma_dirs_go_through(world, scan, dirs.passed(false), io);
        } else {
            let found = Found { any: scan.found.any || dirs.has_file, ..scan.found };
            lemma_scan_goes_through(world, Scan { found, ..scan.passed() }, io);
        }
    }
}

/// Making the tree does not fail.
proof fn lemma_promoting_does_not_fail(world: World, k: int, found: Found, io: Io)
    requires
        0 <= k <= 5,
        truthful(world, io, promote_from(k, found, io)),
    ensures
        !(promote_from(k, found, io).out is Fail),
    decreases 5 - k,
{
    if k < 5 {
        let next = lemma_promote_now(world, k, found, io);
        if !(promote_from(k, found, io).out is Waiting) {
            lemma_promoting_does_not_fail(world, k + 1, promoted_in(world, k, found), next);
        }
    }
}

/// Going through the modules for their files comes to its end only if the host can tell the kinds
/// of all of them and the names of all directories among them are text. Where every directory can
/// be listed, nothing else is needed, and the first module that is not so tells the error.
pub proof fn modules_are_gone_through(world: World, rules: RulesView, io: Io)
    requires
        truthful(world, io, scanned(rules, io)),
    ensures
        scanned(rules, io).out is Done ==> fine_modules(world, rules),
        lists_all(world) && fine_modules(world, rules) ==> !(scanned(rules, io).out is Fail),
        lists_all(world) ==> (scanned(rules, io).out matches Outcome::Fail(e) ==> {
            &&& world(Request::ListDir(rules.module_dir)) matches ReplyView::Listing(l)
            &&& exists|k: int| #[trigger]
                first_trouble(readable(l), 0, k) && e == trouble(readable(l)[k])
        }),
{
    let whole = scanned(rules, io);
    let request = Request::ListDir(rules.module_dir);
    let run = ask(io, request);
    if run.out is Done {
        let reply = io.rest[0];
        if let ReplyView::Listing(l) = reply {
            let modules = readable(l);
            let scan = Scan { rules, modules, next: 0, found: nothing_found() };
            assert(whole == scan_from(scan, run.io));
            scan_from_only_reads(scan, run.io);
            lemma_truthful_ask(world, io, request, whole, module_queries());
            lemma_scan_goes_through(world, scan, run.io);
            lemma_fine_modules(world, rules);
            if lists_all(world) && whole.out is Fail {
                let k = lemma_first_trouble(modules, 0);
                assert(first_trouble(modules, 0, k));
            }
        } else {
            assert(whole.io.asked[io.asked.len() as int] == request);
            assert(lists_all(world) ==> world(request) is Listing);
        }
    }
}

/// How far the modules that are still to come are gone through for their directories.
proof fn lemma_search_goes_through(world: World, s: Search, io: Io)
    requires
        0 <= s.next,
        truthful(world, io, search(s, io)),
    ensures
        goes_through(world, s.modules, s.next, search(s, io).out),
    decreases s.left(), 10nat, 0nat,
{
    reveal(search);
    reveal(search_dirs);
    let q = module_queries();
    let whole = search(s, io);
    if s.next < s.modules.len() {
        match s.modules[s.next].kind {
            Err(_) => {
                lemma_stops(world, s.modules, s.next, whole.out);
            },
            Ok(FileKind::Dir) => {
                if valid_utf8(s.module()) {
                    let run = takes_part(s.rules, s.path(), io);
                    takes_part_only_reads(s.rules, s.path(), io);
                    lemma_weaken(io, run, queries(), q);
                    assert(whole == search_checked(s, run));
                    match run.out {
                        Outcome::Done(true) => {
                            let list = Request::ListDir(s.path());
                            let listing = ask(run.io, list);
                            assert(whole == search_listed(s, listing));
                            if listing.out is Done {
                                match listing_of(listing.out->Done_0) {
                                    Ok(dirs) => {
                                        assert(whole == search_dirs(s, dirs, 0, listing.io));
                                        search_dirs_only_reads(s, dirs, 0, listing.io);
                                        lemma_asked(run.io, list, whole, q);
                                        lemma_truthful_parts(world, io, run, whole, q);
                                        lemma_truthful_ask(world, run.io, list, whole, q);
                                        lemma_rest_goes_through(world, s, dirs, 0, listing.io);
                                    },
                                    Err(_) => {
                                        lemma_end(listing.io, whole.out, q);
                                        lemma_asked(run.io, list, whole, q);
                                        lemma_truthful_parts(world, io, run, whole, q);
                                        lemma_truthful_ask(world, run.io, list, whole, q);
                                        assert(!(world(list) is Listing));
                                    },
                                }
                            }
                        },
                        Outcome::Done(false) => {
                            search_only_reads(s.passed(), run.io);
                            lemma_truthful_parts(world, io, run, whole, q);
                            lemma_search_goes_through(world, s.passed(), run.io);
                        },
                        _ => {
                            assert(!(run.out is Fail));
                        },
                    }
                    if !(whole.out is Waiting) {
                        lemma_goes_through(world, s.modules, s.next, whole.out);
                    }
                } else {
                    lemma_stops(world, s.modules, s.next, whole.out);
                }
            },
            Ok(_) => {
                assert(whole == search(s.passed(), io));
                lemma_search_goes_through(world, s.passed(), io);
                lemma_goes_through(world, s.modules, s.next, whole.out);
            },
        }
    }
}

/// How far the modules behind one whose directories are gone through are.
proof fn lemma_rest_goes_through(world: World, s: Search, dirs: Seq<Entry<Text>>, j: int, io: Io)
    requires
        0 <= s.next < s.modules.len(),
        0 <= j <= dirs.len(),
        truthful(world, io, search_dirs(s, dirs, j, io)),
    ensures
        goes_through(world, s.modules, s.next + 1, search_dirs(s, dirs, j, io).out),
    decreases s.left(), 7nat, 3 * still_to_come(dirs, j),
{
    reveal(search);
    reveal(search_dirs);
    let q = module_queries();
    let whole = search_dirs(s, dirs, j, io);
    if j >= dirs.len() {
        assert(whole == search(s.passed(), io));
        lemma_search_goes_through(world, s.passed(), io);
    } else if may_be_partition(dirs[j]) {
        let name = dirs[j].name;
        let run = supported(s.rules, name, io);
        supported_only_reads(s.rules, name, io);
        lemma_weaken(io, run, queries(), q);
        assert(whole == search_supported(s, dirs, j, run));
        match run.out {
            Outcome::Done(true) => {
                let request = Request::IsDir(joined(s.path(), name));
                let next = ask(run.io, request);
                assert(whole == search_source(s, dirs, j, next));
                if next.out is Done {
                    let rest = if flag_of(next.out->Done_0) {
                        s.with(name)
                    } else {
                        s
                    };
                    assert(whole == search_dirs(rest, dirs, j + 1, next.io));
                    search_dirs_only_reads(rest, dirs, j + 1, next.io);
                    lemma_asked(run.io, request, whole, q);
                    lemma_truthful_parts(world, io, run, whole, q);
                    lemma_truthful_ask(world, run.io, request, whole, q);
                    lemma_rest_goes_through(world, rest, dirs, j + 1, next.io);
                }
            },
            Outcome::Done(false) => {
                assert(whole == search_dirs(s, dirs, j + 1, run.io));
                search_dirs_only_reads(s, dirs, j + 1, run.io);
                lemma_truthful_parts(world, io, run, whole, q);
                lemma_rest_goes_through(world, s, dirs, j + 1, run.io);
            },
            _ => {
                assert(!(run.out is Fail));
            },
        }
    } else {
        assert(whole == search_dirs(s, dirs, j + 1, io));
        lemma_rest_goes_through(world, s, dirs, j + 1, io);
    }
}

/// Going through the modules for the directories that overlays are made of comes to its end only if
/// the host can tell the kinds of all of them and the names of all directories among them are text.
/// Where every directory can be listed, nothing else is needed, and the first module that is not so
/// tells the error.
pub proof fn modules_are_searched_through(world: World, rules: RulesView, io: Io)
    requires
        truthful(world, io, partitions_found(rules, io)),
    ensures
        partitions_found(rules, io).out is Done ==> fine_modules(world, rules),
        lists_all(world) && fine_modules(world, rules) ==> !(partitions_found(
            rules,
            io,
        ).out is Fail),
        lists_all(world) ==> (partitions_found(rules, io).out matches Outcome::Fail(e) ==> {
            &&& world(Request::ListDir(rules.module_dir)) matches ReplyView::Listing(l)
            &&& exists|k: int| #[trigger]
                first_trouble(readable(l), 0, k) && e == trouble(readable(l)[k])
        }),
{
    let whole = partitions_found(rules, io);
    let request = Request::ListDir(rules.module_dir);
    let run = ask(io, request);
    if run.out is Done {
        let reply = io.rest[0];
        if let ReplyView::Listing(l) = reply {
            let modules = readable(l);
            let s = Search { rules, modules, next: 0, partitions: Seq::empty() };
            assert(whole == search(s, run.io));
            search_only_reads(s, run.io);
            lemma_truthful_ask(world, io, request, whole, module_queries());
            lemma_search_goes_through(world, s, run.io);
            lemma_fine_modules(world, rules);
            if lists_all(world) && whole.out is Fail {
                let k = lemma_first_trouble(modules, 0);
                assert(first_trouble(modules, 0, k));
            }
        } else {
            assert(whole.io.asked[io.asked.len() as int] == request);
            assert(lists_all(world) ==> world(request) is Listing);
        }
    }
}

} // verus!
