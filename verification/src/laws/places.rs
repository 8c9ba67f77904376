//! Nothing but partitions of the device has a place at the root of the tree.

use vstd::prelude::*;
#[allow(unused_imports)]
use vstd::string::StringSliceAdditionalSpecFns;
use vstd::utf8::valid_utf8;

use crate::bytes::joined;
use crate::collect::collected;
use crate::laws::builtin::{built_in, own_partition};
use crate::laws::collection::{collected_tree_is_well_formed, is_builtin, lemma_names};
use crate::laws::device::{lemma_on_device, on_device, plain_name};
use crate::laws::finding::{collecting_finds_what_is_there, lemma_truthful_ask, truthful, World};
use crate::laws::reading::{module_queries, scan_from_only_reads};
use crate::laws::scanning::{
    lemma_checked_now, lemma_dir_now, lemma_module_now, lemma_other_dir_now, lemma_promote_now,
    promoted_in, stands_alone, system_filled,
};
use crate::laws::tree::mountable;
use crate::node::{lemma_position, position, root_node, NodeView};
use crate::protocol::{
    ask, done, flag_of, listing_of, readable, FileKind, Io, Outcome, ReplyView, Request, Run, Text,
};
use crate::rules::{supported, takes_part, RulesView};
use crate::scan::{
    builtin_partitions, finished, may_be_other_partition, nothing_found, promote_from, scan_checked,
    scan_dirs, scan_from, scanned, tree_of, with_partition, Dirs, Found, Scan,
};

verus! {

/// A name that a node at the root may have: that of a supported partition on the device, if it is
/// text without a dot at the start and not that of the scripts for installing.
pub open spec fn placed(world: World, rules: RulesView, name: Text) -> bool {
    plain_name(name) && on_device(world, rules, name)
}

/// All nodes at the root have names that they may have, or those of built-in partitions that the
/// device has on its own.
spec fn all_placed(world: World, rules: RulesView, nodes: Seq<NodeView>) -> bool {
    forall|i: int|
        0 <= i < nodes.len() ==> placed(world, rules, (#[trigger] nodes[i]).name) || (built_in(
            nodes[i].name,
        ) && own_partition(world, nodes[i].name))
}

/// A node at the root of the tree that a computation ends with has its place there.
spec fn tree_placed(world: World, rules: RulesView, run: Run<Option<NodeView>>) -> bool {
    run.out matches Outcome::Done(Some(tree)) ==> forall|i: int|
        0 <= i < tree.children.len() ==> {
            ||| (#[trigger] tree.children[i]).name == "system".spec_bytes()
            ||| placed(world, rules, tree.children[i].name)
            ||| built_in(tree.children[i].name) && own_partition(world, tree.children[i].name)
        }
}

/// What is taken to the root has its place there.
proof fn lemma_promotions_placed(
    world: World,
    rules: RulesView,
    k: int,
    found: Found,
    io: Io,
)
    requires
        0 <= k <= 5,
        found.system.name == "system".spec_bytes(),
        all_placed(world, rules, found.root.children),
        truthful(world, io, promote_from(k, found, io)),
    ensures
        tree_placed(world, rules, promote_from(k, found, io)),
    decreases 5 - k,
{
    if k >= 5 {
        let nodes = found.root.children;
        lemma_position(nodes, found.system.name);
        let tree = tree_of(found);
        assert forall|i: int| 0 <= i < tree.children.len() implies {
            ||| (#[trigger] tree.children[i]).name == "system".spec_bytes()
            ||| placed(world, rules, tree.children[i].name)
            ||| built_in(tree.children[i].name) && own_partition(world, tree.children[i].name)
        } by {
            if i < nodes.len() && position(nodes, found.system.name) != Some(i) {
                assert(tree.children[i] == nodes[i]);
            }
        }
    } else {
        let next = lemma_promote_now(world, k, found, io);
        if !(promote_from(k, found, io).out is Waiting) {
            let name = builtin_partitions()[k].0;
            let more = promoted_in(world, k, found);
            if stands_alone(world, k) {
                lemma_names();
                assert(built_in(name) && own_partition(world, name));
                let below = found.system.children;
                let nodes = found.root.children;
                lemma_position(below, name);
                lemma_position(nodes, name);
                let all = more.root.children;
                assert forall|i: int| 0 <= i < all.len() implies placed(
                    world,
                    rules,
                    (#[trigger] all[i]).name,
                ) || (built_in(all[i].name) && own_partition(world, all[i].name)) by {
                    if i < nodes.len() {
                        assert(all[i].name == nodes[i].name);
                    }
                }
            }
            lemma_promotions_placed(world, rules, k + 1, more, next);
        }
    }
}

/// The files for a partition take a place that they may have.
proof fn lemma_partition_placed(
    world: World,
    rules: RulesView,
    found: Found,
    node: NodeView,
    has_file: bool,
)
    requires
        all_placed(world, rules, found.root.children),
        placed(world, rules, node.name),
    ensures
        all_placed(world, rules, with_partition(found, node, has_file).root.children),
        with_partition(found, node, has_file).system == found.system,
{
    let nodes = found.root.children;
    let all = with_partition(found, node, has_file).root.children;
    lemma_position(nodes, node.name);
    assert forall|i: int| 0 <= i < all.len() implies placed(
        world,
        rules,
        (#[trigger] all[i]).name,
    ) || (built_in(all[i].name) && own_partition(world, all[i].name)) by {
        if i < nodes.len() {
            assert(all[i].name == nodes[i].name);
        }
    }
}

/// What the modules that are still to come lead to.
proof fn lemma_scan_placed(world: World, scan: Scan, io: Io)
    requires
        0 <= scan.next,
        scan.found.system.name == "system".spec_bytes(),
        all_placed(world, scan.rules, scan.found.root.children),
        truthful(world, io, scan_from(scan, io)),
    ensures
        tree_placed(world, scan.rules, scan_from(scan, io)),
    decreases scan.left(), 10nat, 0nat,
{
    let whole = scan_from(scan, io);
    if scan.next >= scan.modules.len() {
        reveal(scan_from);
        assert(whole == finished(scan.found, io));
        if scan.found.any {
            lemma_promotions_placed(world, scan.rules, 0, scan.found, io);
        }
    } else {
        let module = scan.modules[scan.next];
        match module.kind {
            Err(_) => {
                reveal(scan_from);
            },
            Ok(FileKind::Dir) => {
                if valid_utf8(module.name) {
                    lemma_module_now(world, scan, io);
                    let run = takes_part(scan.rules, scan.path(), io);
                    match run.out {
                        Outcome::Done(true) => {
                            lemma_module_placed(world, scan, run.io);
                        },
                        Outcome::Done(false) => {
                            lemma_scan_placed(world, scan.passed(), run.io);
                        },
                        _ => {},
                    }
                } else {
                    reveal(scan_from);
                }
            },
            Ok(_) => {
                assert(whole == scan_from(scan.passed(), io)) by {
                    reveal(scan_from);
                }
                lemma_scan_placed(world, scan.passed(), io);
            },
        }
    }
}

/// What a module that takes part leads to.
proof fn lemma_module_placed(world: World, scan: Scan, io: Io)
    requires
        0 <= scan.next < scan.modules.len(),
        scan.found.system.name == "system".spec_bytes(),
        all_placed(world, scan.rules, scan.found.root.children),
        truthful(world, io, scan_checked(scan, done(io, true))),
    ensures
        tree_placed(world, scan.rules, scan_checked(scan, done(io, true))),
    decreases scan.left(), 9nat, 0nat,
{
    let dir = joined(scan.path(), "system".spec_bytes());
    let request = Request::IsDir(dir);
    let looked = ask(io, request);
    let filled = system_filled(scan, flag_of(world(request)), looked.io);
    lemma_checked_now(world, scan, io);
    if looked.out is Done {
        if flag_of(world(request)) {
            collecting_finds_what_is_there(world, scan.found.system, dir, looked.io);
        }
        match filled.out {
            Outcome::Done(f) => {
                let list = Request::ListDir(scan.path());
                let listing = ask(filled.io, list);
                if listing.out is Done {
                    match listing_of(world(list)) {
                        Ok(dirs) => {
                            let d = Dirs { dirs, next: 0, has_file: f.1 };
                            lemma_dirs_placed(world, scan.with_system(f.0), d, listing.io);
                        },
                        Err(_) => {},
                    }
                }
            },
            _ => {},
        }
    }
}

/// What the directories of a module that are still to come lead to.
proof fn lemma_dirs_placed(world: World, scan: Scan, dirs: Dirs, io: Io)
    requires
        0 <= scan.next < scan.modules.len(),
        0 <= dirs.next <= dirs.dirs.len(),
        scan.found.system.name == "system".spec_bytes(),
        all_placed(world, scan.rules, scan.found.root.children),
        truthful(world, io, scan_dirs(scan, dirs, io)),
    ensures
        tree_placed(world, scan.rules, scan_dirs(scan, dirs, io)),
    decreases scan.left(), 5nat, 3 * dirs.left(),
{
    if dirs.next < dirs.dirs.len() && may_be_other_partition(dirs.dirs[dirs.next]) {
        let name = dirs.name();
        let dir = joined(scan.path(), name);
        let run = supported(scan.rules, name, io);
        lemma_dir_now(world, scan, dirs, io);
        match run.out {
            Outcome::Done(true) => {
                let filled = collected(root_node(name), dir, run.io);
                collecting_finds_what_is_there(world, root_node(name), dir, run.io);
                lemma_on_device(world, scan.rules, name);
                match filled.out {
                    Outcome::Done(f) => {
                        let next = Scan { found: with_partition(scan.found, f.0, f.1), ..scan };
                        assert(f.0.name == name);
                        lemma_partition_placed(world, scan.rules, scan.found, f.0, f.1);
                        lemma_dirs_placed(world, next, dirs.passed(f.1), filled.io);
                    },
                    _ => {},
                }
            },
            Outcome::Done(false) => {
                lemma_dirs_placed(world, scan, dirs.passed(false), run.io);
            },
            _ => {},
        }
    } else {
        lemma_other_dir_now(scan, dirs, io);
        if dirs.next < dirs.dirs.len() {
            lemma_dirs_placed(world, scan, dirs.passed(false), io);
        } else {
            let found = Found { any: scan.found.any || dirs.has_file, ..scan.found };
            lemma_scan_placed(world, Scan { found, ..scan.passed() }, io);
        }
    }
}

/// Besides the system partition, a node at the root of the tree is that of a partition that is
/// listed as supported and on the device, under a name that is text without a dot at the start and
/// not that of the scripts for installing, and has something to mount; or it is that of a built-in
/// partition that the device has on its own.
pub proof fn only_partitions_have_a_place(world: World, rules: RulesView, i: int, io: Io)
    requires
        truthful(world, io, scanned(rules, io)),
    ensures
        scanned(rules, io).out matches Outcome::Done(Some(tree)) ==> (0 <= i
            < tree.children.len() ==> {
            let child = tree.children[i];
            ||| child.name == "system".spec_bytes()
            ||| plain_name(child.name) && on_device(world, rules, child.name) && (built_in(
                child.name,
            ) || mountable(child))
            ||| built_in(child.name) && own_partition(world, child.name)
        }),
{
    let whole = scanned(rules, io);
    let request = Request::ListDir(rules.module_dir);
    let run = ask(io, request);
    collected_tree_is_well_formed(rules, io);
    if run.out is Done {
        let reply = io.rest[0];
        if let ReplyView::Listing(l) = reply {
            let scan = Scan { rules, modules: readable(l), next: 0, found: nothing_found() };
            assert(whole == scan_from(scan, run.io));
            scan_from_only_reads(scan, run.io);
            lemma_truthful_ask(world, io, request, whole, module_queries());
            lemma_scan_placed(world, scan, run.io);
            if let Outcome::Done(Some(tree)) = whole.out {
                if 0 <= i < tree.children.len() {
                    let name = tree.children[i].name;
                    if is_builtin(name) {
                        let k = choose|k: int|
                            0 <= k < 5 && (#[trigger] builtin_partitions()[k]).0 == name;
                        assert(built_in(name));
                    }
                }
            }
        }
    }
}

} // verus!
