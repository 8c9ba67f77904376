//! What is found of each module on the way through all of them.

use vstd::prelude::*;
#[allow(unused_imports)]
use vstd::string::StringSliceAdditionalSpecFns;
use vstd::utf8::valid_utf8;

use crate::bytes::{joined, lossy_text};
use crate::collect::collected;
use crate::laws::collection::{lemma_names, merging_keeps_the_first};
use crate::laws::finding::{
    collecting_finds_what_is_there, covers, covers_entry, lemma_covers_further, made_in,
    made_of_entry, made_of_nth, stays_or_stems, stems, truthful, World,
};
use crate::laws::provenance::{
    lemma_absorbed_provided, lemma_at_home, lemma_stems_provided, participates, plain_world,
    provided,
};
use crate::laws::repeating::{
    child_told, collected_directories_are_settled, entry_settled, entry_told, settled, told,
};
use crate::laws::scanning::{
    lemma_checked_now, lemma_dir_now, lemma_module_now, lemma_other_dir_now, system_filled,
};
use crate::laws::sources::{supported_in, takes_part_in};
use crate::laws::tree::{
    collected_grows, extends, lemma_extends_further, lemma_extends_itself, lemma_plain_listing,
    plain_entry, plain_reply, relative, sound_dir,
};
use crate::node::{absorbed, lemma_position, merged, position, root_node, NodeFileType, NodeView};
use crate::protocol::{
    ask, done, flag_of, listing_of, Entry, Error, FileKind, Io, Outcome, Request, Run, Text,
};
use crate::rules::{supported, takes_part, RulesView};
use crate::scan::{
    finished, may_be_other_partition, promote_from, scan_checked, scan_dirs, scan_from,
    with_partition, Dirs, Found, Scan,
};

verus! {

/// Each entry of the directory `dir` that the host can look at has a child of its name below a
/// node.
pub open spec fn names_covered(world: World, dir: Text, node: NodeView) -> bool {
    listing_of(world(Request::ListDir(dir))) matches Ok(entries) && forall|j: int|
        0 <= j < entries.len() ==> name_covered(world, dir, #[trigger] entries[j], node)
}

/// An entry of the directory `dir` that the host can look at has a child of its name below a node.
pub open spec fn name_covered(world: World, dir: Text, entry: Entry<Text>, node: NodeView) -> bool {
    let name = lossy_text(entry.name);
    made_in(world, name, joined(dir, entry.name)) is Some ==> position(node.children, name) is Some
}

/// There is a node of that name among several which covers the names in the directory `dir`.
pub open spec fn named_in(world: World, dir: Text, name: Text, nodes: Seq<NodeView>) -> bool {
    exists|k: int|
        0 <= k < nodes.len() && (#[trigger] nodes[k]).name == name && names_covered(
            world,
            dir,
            nodes[k],
        )
}

/// The directory `dir` holds something to mount no deeper than `depth` levels down: a file, or a
/// directory that replaces the device's.
pub open spec fn holds_file(world: World, dir: Text, depth: nat) -> bool
    decreases depth,
{
    depth > 0 && exists|j: int|
        made_of_nth(world, dir, j) is Some && {
            let made = (#[trigger] made_of_nth(world, dir, j))->0;
            ||| made.file_type != NodeFileType::Directory
            ||| made.replace
            ||| holds_file(world, joined(dir, made.name), (depth - 1) as nat)
        }
}

/// The directory `dir` holds something to mount, however deep.
pub open spec fn holds_something(world: World, dir: Text) -> bool {
    exists|depth: nat| holds_file(world, dir, depth)
}

/// No two entries of a directory read the same.
pub open spec fn clear_listing(world: World, dir: Text) -> bool {
    listing_of(world(Request::ListDir(dir))) matches Ok(entries) ==> forall|i: int, j: int|
        0 <= i < j < entries.len() ==> lossy_text((#[trigger] entries[i]).name) != lossy_text(
            (#[trigger] entries[j]).name,
        )
}

/// No two entries of the same directory read the same, as is so where all names are UTF-8.
pub open spec fn clear_names(world: World) -> bool {
    forall|dir: Text| #[trigger] clear_listing(world, dir)
}

/// A directory that holds something to mount is told to.
pub proof fn lemma_holding_is_told(
    world: World,
    dir: Text,
    fresh: NodeView,
    node: NodeView,
    depth: nat,
)
    requires
        clear_names(world),
        fresh.children.len() == 0,
        stems(world, dir, fresh, node),
        settled(world, dir, node),
        holds_file(world, dir, depth),
    ensures
        told(world, dir, node),
    decreases depth,
{
    let entries = listing_of(world(Request::ListDir(dir)))->Ok_0;
    let j = choose|j: int|
        made_of_nth(world, dir, j) is Some && {
            let made = (#[trigger] made_of_nth(world, dir, j))->0;
            ||| made.file_type != NodeFileType::Directory
            ||| made.replace
            ||| holds_file(world, joined(dir, made.name), (depth - 1) as nat)
        };
    let made = made_of_nth(world, dir, j)->0;
    let entry = entries[j];
    let name = lossy_text(entry.name);
    assert(made.name == name);
    assert(entry_settled(world, dir, entries[j], node));
    lemma_position(node.children, name);
    let k = position(node.children, name)->0;
    let child = node.children[k];
    assert(made_of_entry(world, dir, child));
    let i = choose|i: int| #[trigger] made_of_nth(world, dir, i) is Some && stays_or_stems(
        world,
        dir,
        made_of_nth(world, dir, i)->0,
        child,
    );
    assert(lossy_text(entries[i].name) == name);
    assert(i == j) by {
        assert(clear_listing(world, dir));
        assert(entries[i] == entries[i] && entries[j] == entries[j]);
    }
    assert(child.file_type == made.file_type && child.replace == made.replace);
    if made.file_type == NodeFileType::Directory && !made.replace {
        let below = joined(dir, name);
        assert(stems(world, below, made, child));
        lemma_holding_is_told(world, below, made, child, (depth - 1) as nat);
    }
    assert(child_told(world, dir, child));
    assert(entry_told(world, dir, entries[j], node));
}

/// A directory that has been collected has its names covered.
proof fn lemma_settled_names(world: World, dir: Text, node: NodeView)
    requires
        settled(world, dir, node),
    ensures
        names_covered(world, dir, node),
{
    let entries = listing_of(world(Request::ListDir(dir)))->Ok_0;
    assert forall|j: int| 0 <= j < entries.len() implies name_covered(
        world,
        dir,
        #[trigger] entries[j],
        node,
    ) by {
        assert(entry_settled(world, dir, entries[j], node));
    }
}

/// What has its place below a node has its name covered.
pub proof fn lemma_covered_names(world: World, dir: Text, node: NodeView)
    requires
        covers(world, dir, node),
    ensures
        names_covered(world, dir, node),
{
    let entries = listing_of(world(Request::ListDir(dir)))->Ok_0;
    assert forall|j: int| 0 <= j < entries.len() implies name_covered(
        world,
        dir,
        #[trigger] entries[j],
        node,
    ) by {
        assert(covers_entry(world, dir, entries[j], node));
        lemma_position(node.children, lossy_text(entries[j].name));
    }
}

/// Names that are covered by one node are covered by another that has all its children's names.
proof fn lemma_names_further(world: World, dir: Text, node: NodeView, larger: NodeView)
    requires
        names_covered(world, dir, node),
        forall|j: int|
            0 <= j < node.children.len() ==> position(
                larger.children,
                (#[trigger] node.children[j]).name,
            ) is Some,
    ensures
        names_covered(world, dir, larger),
{
    let entries = listing_of(world(Request::ListDir(dir)))->Ok_0;
    assert forall|j: int| 0 <= j < entries.len() implies name_covered(
        world,
        dir,
        #[trigger] entries[j],
        larger,
    ) by {
        assert(name_covered(world, dir, entries[j], node));
        lemma_position(node.children, lossy_text(entries[j].name));
    }
}

/// What is named among some nodes is named among others, but for the system partition.
pub open spec fn keeps_names(world: World, few: Seq<NodeView>, many: Seq<NodeView>) -> bool {
    forall|dir: Text, name: Text| #[trigger]
        named_in(world, dir, name, few) && name != "system".spec_bytes() ==> named_in(
            world,
            dir,
            name,
            many,
        )
}

/// Adding the files for a partition keeps all names, and adds those of the partition.
pub proof fn lemma_absorbed_names(world: World, nodes: Seq<NodeView>, node: NodeView)
    ensures
        keeps_names(world, nodes, absorbed(nodes, node)),
        forall|dir: Text| #[trigger]
            names_covered(world, dir, node) ==> named_in(
                world,
                dir,
                node.name,
                absorbed(nodes, node),
            ),
{
    let all = absorbed(nodes, node);
    lemma_position(nodes, node.name);
    match position(nodes, node.name) {
        Some(k) => {
            let children = merged(nodes[k].children, node.children);
            merging_keeps_the_first(nodes[k].children, node.children);
            assert forall|j: int| 0 <= j < nodes[k].children.len() implies position(
                children,
                (#[trigger] nodes[k].children[j]).name,
            ) is Some by {
                assert(children[j] == nodes[k].children[j]);
                lemma_position(children, nodes[k].children[j].name);
            }
            assert(all[k].children == children);
            assert forall|dir: Text, name: Text| #[trigger]
                named_in(world, dir, name, nodes) implies named_in(world, dir, name, all) by {
                let i = choose|i: int|
                    0 <= i < nodes.len() && (#[trigger] nodes[i]).name == name && names_covered(
                        world,
                        dir,
                        nodes[i],
                    );
                assert(all[i].name == name);
                if i == k {
                    lemma_names_further(world, dir, nodes[k], all[k]);
                }
            }
            assert forall|dir: Text| #[trigger] names_covered(world, dir, node) implies named_in(
                world,
                dir,
                node.name,
                all,
            ) by {
                lemma_names_further(world, dir, node, all[k]);
                assert(all[k].name == node.name);
            }
        },
        None => {
            let n = nodes.len() as int;
            assert(all[n] == node);
            assert forall|dir: Text, name: Text| #[trigger]
                named_in(world, dir, name, nodes) implies named_in(world, dir, name, all) by {
                let i = choose|i: int|
                    0 <= i < nodes.len() && (#[trigger] nodes[i]).name == name && names_covered(
                        world,
                        dir,
                        nodes[i],
                    );
                assert(all[i] == nodes[i]);
            }
        },
    }
}

/// A directory of a module that is that of a supported partition, and holds something to mount,
/// has its names covered by a node of its name.
pub open spec fn partition_found(
    world: World,
    rules: RulesView,
    path: Text,
    entry: Entry<Text>,
    nodes: Seq<NodeView>,
) -> bool {
    let dir = joined(path, entry.name);
    may_be_other_partition(entry) && supported_in(world, rules, entry.name) && clear_names(world)
        && holds_something(world, dir) ==> named_in(world, dir, entry.name, nodes)
}

/// All that a module has was found, if it takes part: its files for the system partition, and those
/// for supported partitions.
pub open spec fn module_found(
    world: World,
    rules: RulesView,
    module: Entry<Text>,
    found: Found,
) -> bool {
    let path = joined(rules.module_dir, module.name);
    let system = joined(path, "system".spec_bytes());
    module.kind == Ok::<FileKind, u64>(FileKind::Dir) && takes_part_in(world, rules, path) ==> {
        &&& flag_of(world(Request::IsDir(system))) ==> covers(world, system, found.system)
        &&& listing_of(world(Request::ListDir(path))) matches Ok(dirs) && forall|j: int|
            0 <= j < dirs.len() ==> partition_found(
                world,
                rules,
                path,
                #[trigger] dirs[j],
                found.root.children,
            )
    }
}

/// Nothing that was found has been lost.
pub open spec fn found_grown(world: World, few: Found, many: Found) -> bool {
    &&& extends(few.system, many.system)
    &&& sound_dir(few.system) ==> sound_dir(many.system)
    &&& keeps_names(world, few.root.children, many.root.children)
}

/// What was found of a module stays found.
proof fn lemma_module_found_further(
    world: World,
    rules: RulesView,
    module: Entry<Text>,
    few: Found,
    many: Found,
)
    requires
        module_found(world, rules, module, few),
        found_grown(world, few, many),
    ensures
        module_found(world, rules, module, many),
{
    let path = joined(rules.module_dir, module.name);
    let system = joined(path, "system".spec_bytes());
    if module.kind == Ok::<FileKind, u64>(FileKind::Dir) && takes_part_in(world, rules, path) {
        if flag_of(world(Request::IsDir(system))) {
            lemma_covers_further(world, system, few.system, many.system);
        }
        let dirs = listing_of(world(Request::ListDir(path)))->Ok_0;
        assert forall|j: int| 0 <= j < dirs.len() implies partition_found(
            world,
            rules,
            path,
            #[trigger] dirs[j],
            many.root.children,
        ) by {
            assert(partition_found(world, rules, path, dirs[j], few.root.children));
        }
    }
}

/// All children of that name are directories.
pub open spec fn only_dirs(name: Text, nodes: Seq<NodeView>) -> bool {
    forall|i: int|
        0 <= i < nodes.len() && (#[trigger] nodes[i]).name == name ==> nodes[i].file_type
            == NodeFileType::Directory
}

/// What a module has below its files for the system partition under that name is a directory, if
/// the module takes part and the host can look at it.
pub open spec fn brings_dirs(
    world: World,
    rules: RulesView,
    module: Entry<Text>,
    name: Text,
) -> bool {
    let path = joined(rules.module_dir, module.name);
    let system = joined(path, "system".spec_bytes());
    module.kind == Ok::<FileKind, u64>(FileKind::Dir) && takes_part_in(world, rules, path)
        && flag_of(world(Request::IsDir(system))) ==> forall|j: int| #[trigger]
        made_of_nth(world, system, j) matches Some(made) ==> made.name == name ==> made.file_type
            == NodeFileType::Directory
}

/// All modules from the one at `i` on bring directories under that name.
pub open spec fn all_bring_dirs(
    world: World,
    rules: RulesView,
    modules: Seq<Entry<Text>>,
    i: int,
    name: Text,
) -> bool {
    forall|k: int|
        i <= k < modules.len() ==> brings_dirs(world, rules, #[trigger] modules[k], name)
}

/// All that was found comes from modules that take part.
pub open spec fn found_provided(
    world: World,
    rules: RulesView,
    modules: Seq<Entry<Text>>,
    found: Found,
) -> bool {
    &&& provided(world, rules, modules, found.root)
    &&& provided(world, rules, modules, found.system)
}

/// A way through the modules has come to its end with all that was found.
pub open spec fn ends_with(
    world: World,
    name: Text,
    scan: Scan,
    whole: Run<Option<NodeView>>,
    end: (Found, Io),
) -> bool {
    whole.out matches Outcome::Done(Some(_)) ==> {
        &&& whole == promote_from(0, end.0, end.1)
        &&& truthful(world, end.1, whole)
        &&& found_grown(world, scan.found, end.0)
        &&& forall|k: int|
            scan.next <= k < scan.modules.len() ==> module_found(
                world,
                scan.rules,
                #[trigger] scan.modules[k],
                end.0,
            )
        &&& only_dirs(name, scan.found.system.children) && all_bring_dirs(
            world,
            scan.rules,
            scan.modules,
            scan.next,
            name,
        ) ==> only_dirs(name, end.0.system.children)
        &&& plain_world(world) && found_provided(world, scan.rules, scan.modules, scan.found)
            ==> found_provided(world, scan.rules, scan.modules, end.0)
    }
}

/// Nothing is lost when nothing happens.
proof fn lemma_found_itself(world: World, found: Found)
    ensures
        found_grown(world, found, found),
{
    lemma_extends_itself(found.system);
}

/// Nothing is lost in two steps if nothing is lost in either.
proof fn lemma_found_further(world: World, a: Found, b: Found, c: Found)
    requires
        found_grown(world, a, b),
        found_grown(world, b, c),
    ensures
        found_grown(world, a, c),
{
    lemma_extends_further(a.system, b.system, c.system);
    assert forall|dir: Text, name: Text| #[trigger]
        named_in(world, dir, name, a.root.children) && name
            != "system".spec_bytes() implies named_in(world, dir, name, c.root.children) by {
        assert(named_in(world, dir, name, b.root.children));
    }
}

/// A way through the modules from one on which nothing was lost, or on which the next module was
/// found.
proof fn lemma_ends_with(
    world: World,
    name: Text,
    scan: Scan,
    next: Scan,
    whole: Run<Option<NodeView>>,
    end: (Found, Io),
)
    requires
        0 <= scan.next < scan.modules.len(),
        next.rules == scan.rules,
        next.modules == scan.modules,
        found_grown(world, scan.found, next.found),
        next.next == scan.next || next.next == scan.next + 1 && module_found(
            world,
            scan.rules,
            scan.modules[scan.next],
            next.found,
        ),
        only_dirs(name, scan.found.system.children) && brings_dirs(
            world,
            scan.rules,
            scan.modules[scan.next],
            name,
        ) ==> only_dirs(name, next.found.system.children),
        plain_world(world) && found_provided(world, scan.rules, scan.modules, scan.found)
            ==> found_provided(world, scan.rules, scan.modules, next.found),
        ends_with(world, name, next, whole, end),
    ensures
        ends_with(world, name, scan, whole, end),
{
    match whole.out {
        Outcome::Done(Some(_)) => {
            lemma_found_further(world, scan.found, next.found, end.0);
            if next.next == scan.next + 1 {
                lemma_module_found_further(
                    world,
                    scan.rules,
                    scan.modules[scan.next],
                    next.found,
                    end.0,
                );
            }
            assert forall|k: int| scan.next <= k < scan.modules.len() implies module_found(
                world,
                scan.rules,
                #[trigger] scan.modules[k],
                end.0,
            ) by {
                assert(next.modules[k] == scan.modules[k]);
            }
            if all_bring_dirs(world, scan.rules, scan.modules, scan.next, name) {
                assert(brings_dirs(world, scan.rules, scan.modules[scan.next], name));
            }
        },
        _ => {},
    }
}

/// All that the modules which are still to come have is found.
pub proof fn lemma_scan_end(world: World, name: Text, scan: Scan, io: Io) -> (end: (Found, Io))
    requires
        0 <= scan.next,
        truthful(world, io, scan_from(scan, io)),
    ensures
        ends_with(world, name, scan, scan_from(scan, io), end),
    decreases scan.left(), 10nat, 0nat,
{
    let whole = scan_from(scan, io);
    lemma_found_itself(world, scan.found);
    if scan.next >= scan.modules.len() {
        reveal(scan_from);
        assert(whole == finished(scan.found, io));
        (scan.found, io)
    } else {
        match scan.modules[scan.next].kind {
            Ok(FileKind::Dir) => {
                if valid_utf8(scan.modules[scan.next].name) {
                    lemma_module_now(world, scan, io);
                    let run = takes_part(scan.rules, scan.path(), io);
                    match run.out {
                        Outcome::Done(true) => lemma_module_end(world, name, scan, run.io),
                        Outcome::Done(false) => {
                            let end = lemma_scan_end(world, name, scan.passed(), run.io);
                            lemma_ends_with(world, name, scan, scan.passed(), whole, end);
                            end
                        },
                        _ => (scan.found, io),
                    }
                } else {
                    reveal(scan_from);
                    (scan.found, io)
                }
            },
            Ok(_) => {
                assert(whole == scan_from(scan.passed(), io)) by {
                    reveal(scan_from);
                }
                let end = lemma_scan_end(world, name, scan.passed(), io);
                lemma_ends_with(world, name, scan, scan.passed(), whole, end);
                end
            },
            Err(_) => {
                reveal(scan_from);
                (scan.found, io)
            },
        }
    }
}

/// What a module adds to the files for the system partition.
proof fn lemma_system_added(world: World, name: Text, scan: Scan, has_system: bool, io: Io)
    requires
        0 <= scan.next < scan.modules.len(),
        scan.modules[scan.next].kind == Ok::<FileKind, u64>(FileKind::Dir),
        takes_part_in(world, scan.rules, scan.path()),
        has_system == flag_of(
            world(Request::IsDir(joined(scan.path(), "system".spec_bytes()))),
        ),
        truthful(world, io, system_filled(scan, has_system, io)),
    ensures
        system_filled(scan, has_system, io).out matches Outcome::Done((system, _)) ==> {
            &&& found_grown(world, scan.found, scan.with_system(system).found)
            &&& has_system ==> covers(
                world,
                joined(scan.path(), "system".spec_bytes()),
                system,
            )
            &&& only_dirs(name, scan.found.system.children) && brings_dirs(
                world,
                scan.rules,
                scan.modules[scan.next],
                name,
            ) ==> only_dirs(name, system.children)
            &&& plain_world(world) && provided(world, scan.rules, scan.modules, scan.found.system)
                ==> provided(world, scan.rules, scan.modules, system)
        },
{
    let dir = joined(scan.path(), "system".spec_bytes());
    let before = scan.found.system;
    lemma_extends_itself(before);
    lemma_names();
    lemma_at_home(scan.rules, scan.modules[scan.next], "system".spec_bytes());
    if has_system {
        collecting_finds_what_is_there(world, before, dir, io);
        collected_grows(scan.rules.module_dir, before, dir, io);
        match collected(before, dir, io).out {
            Outcome::Done((system, _)) => {
                if plain_world(world) && provided(world, scan.rules, scan.modules, before) {
                    lemma_stems_provided(
                        world,
                        scan.rules,
                        scan.modules,
                        scan.next,
                        dir,
                        before,
                        system,
                    );
                }
                if only_dirs(name, before.children) && brings_dirs(
                    world,
                    scan.rules,
                    scan.modules[scan.next],
                    name,
                ) {
                    assert forall|i: int|
                        0 <= i < system.children.len() && (#[trigger] system.children[i]).name
                            == name implies system.children[i].file_type
                        == NodeFileType::Directory by {
                        let child = system.children[i];
                        if i < before.children.len() {
                            assert(stays_or_stems(world, dir, before.children[i], child));
                        } else {
                            assert(made_of_entry(world, dir, child));
                            let j = choose|j: int| #[trigger]
                                made_of_nth(world, dir, j) is Some && stays_or_stems(
                                    world,
                                    dir,
                                    made_of_nth(world, dir, j)->0,
                                    child,
                                );
                            assert(made_of_nth(world, dir, j) is Some);
                        }
                    }
                }
            },
            _ => {},
        }
    }
}

/// All that a module which takes part has is found, and what those behind it have.
proof fn lemma_module_end(world: World, name: Text, scan: Scan, io: Io) -> (end: (Found, Io))
    requires
        0 <= scan.next < scan.modules.len(),
        scan.modules[scan.next].kind == Ok::<FileKind, u64>(FileKind::Dir),
        takes_part_in(world, scan.rules, scan.path()),
        truthful(world, io, scan_checked(scan, done(io, true))),
    ensures
        ends_with(world, name, scan, scan_checked(scan, done(io, true)), end),
    decreases scan.left(), 9nat, 0nat,
{
    let whole = scan_checked(scan, done(io, true));
    lemma_checked_now(world, scan, io);
    let request = Request::IsDir(joined(scan.path(), "system".spec_bytes()));
    let looked = ask(io, request);
    let has_system = flag_of(world(request));
    let filled = system_filled(scan, has_system, looked.io);
    let list = Request::ListDir(scan.path());
    let listed = ask(filled.io, list);
    if looked.out is Done && filled.out is Done && listed.out is Done && listing_of(
        world(list),
    ) is Ok {
        let f = filled.out->Done_0;
        let dirs = listing_of(world(list))->Ok_0;
        let next = scan.with_system(f.0);
        lemma_system_added(world, name, scan, has_system, looked.io);
        let end = lemma_dirs_end(
            world,
            name,
            next,
            Dirs { dirs, next: 0, has_file: f.1 },
            listed.io,
        );
        lemma_ends_with(world, name, scan, next, whole, end);
        end
    } else {
        (scan.found, io)
    }
}

/// What a directory of a partition adds.
proof fn lemma_partition_added(world: World, found: Found, name: Text, dir: Text, io: Io)
    requires
        truthful(world, io, collected(root_node(name), dir, io)),
    ensures
        collected(root_node(name), dir, io).out matches Outcome::Done((node, has_file)) ==> {
            &&& found_grown(world, found, with_partition(found, node, has_file))
            &&& clear_names(world) && holds_something(world, dir) ==> named_in(
                world,
                dir,
                name,
                with_partition(found, node, has_file).root.children,
            )
        },
{
    let fresh = root_node(name);
    lemma_extends_itself(found.system);
    collecting_finds_what_is_there(world, fresh, dir, io);
    collected_directories_are_settled(world, fresh, dir, io);
    match collected(fresh, dir, io).out {
        Outcome::Done((node, has_file)) => {
            lemma_settled_names(world, dir, node);
            if clear_names(world) && holds_something(world, dir) {
                let depth = choose|depth: nat| holds_file(world, dir, depth);
                lemma_holding_is_told(world, dir, fresh, node, depth);
            }
            lemma_absorbed_names(world, found.root.children, node);
            assert(names_covered(world, dir, node));
        },
        _ => {},
    }
}

/// What a directory of a partition adds comes from a module that takes part.
proof fn lemma_partition_provided(world: World, scan: Scan, name: Text, io: Io)
    requires
        0 <= scan.next < scan.modules.len(),
        participates(world, scan.rules, scan.modules[scan.next]),
        plain_world(world),
        relative(name),
        found_provided(world, scan.rules, scan.modules, scan.found),
        truthful(world, io, collected(root_node(name), joined(scan.path(), name), io)),
    ensures
        collected(root_node(name), joined(scan.path(), name), io).out matches Outcome::Done(
            (node, has_file),
        ) ==> found_provided(
            world,
            scan.rules,
            scan.modules,
            with_partition(scan.found, node, has_file),
        ),
{
    let fresh = root_node(name);
    let dir = joined(scan.path(), name);
    collecting_finds_what_is_there(world, fresh, dir, io);
    lemma_at_home(scan.rules, scan.modules[scan.next], name);
    match collected(fresh, dir, io).out {
        Outcome::Done((node, _)) => {
            assert(provided(world, scan.rules, scan.modules, fresh));
            lemma_stems_provided(
                world,
                scan.rules,
                scan.modules,
                scan.next,
                dir,
                fresh,
                node,
            );
            lemma_absorbed_provided(
                world,
                scan.rules,
                scan.modules,
                scan.found.root.children,
                node,
            );
        },
        _ => {},
    }
}

/// All that the directories of a module have which are still to come is found, and what the modules
/// behind it have.
proof fn lemma_dirs_end(
    world: World,
    name: Text,
    scan: Scan,
    dirs: Dirs,
    io: Io,
) -> (end: (Found, Io))
    requires
        0 <= scan.next < scan.modules.len(),
        participates(world, scan.rules, scan.modules[scan.next]),
        0 <= dirs.next <= dirs.dirs.len(),
        listing_of(world(Request::ListDir(scan.path()))) == Ok::<Seq<Entry<Text>>, Error<Text>>(
            dirs.dirs,
        ),
        flag_of(world(Request::IsDir(joined(scan.path(), "system".spec_bytes())))) ==> covers(
            world,
            joined(scan.path(), "system".spec_bytes()),
            scan.found.system,
        ),
        forall|j: int|
            0 <= j < dirs.next ==> partition_found(
                world,
                scan.rules,
                scan.path(),
                #[trigger] dirs.dirs[j],
                scan.found.root.children,
            ),
        truthful(world, io, scan_dirs(scan, dirs, io)),
    ensures
        ends_with(world, name, scan, scan_dirs(scan, dirs, io), end),
    decreases scan.left(), 5nat, 3 * dirs.left(),
{
    let whole = scan_dirs(scan, dirs, io);
    lemma_found_itself(world, scan.found);
    if dirs.next < dirs.dirs.len() && may_be_other_partition(dirs.dirs[dirs.next]) {
        lemma_dir_now(world, scan, dirs, io);
        let partition = dirs.name();
        let run = supported(scan.rules, partition, io);
        match run.out {
            Outcome::Done(true) => {
                let dir = joined(scan.path(), partition);
                let filled = collected(root_node(partition), dir, run.io);
                match filled.out {
                    Outcome::Done(f) => {
                        let found = with_partition(scan.found, f.0, f.1);
                        let next = Scan { found, ..scan };
                        lemma_partition_added(world, scan.found, partition, dir, run.io);
                        if plain_world(world) && found_provided(
                            world,
                            scan.rules,
                            scan.modules,
                            scan.found,
                        ) {
                            let reply = world(Request::ListDir(scan.path()));
                            assert(plain_reply(reply));
                            lemma_plain_listing(reply);
                            assert(plain_entry(dirs.dirs[dirs.next]));
                            lemma_partition_provided(world, scan, partition, run.io);
                        }
                        assert forall|j: int| 0 <= j <= dirs.next implies partition_found(
                            world,
                            scan.rules,
                            scan.path(),
                            #[trigger] dirs.dirs[j],
                            found.root.children,
                        ) by {
                            if j < dirs.next {
                                assert(partition_found(
                                    world,
                                    scan.rules,
                                    scan.path(),
                                    dirs.dirs[j],
                                    scan.found.root.children,
                                ));
                            }
                        }
                        let end = lemma_dirs_end(
                            world,
                            name,
                            next,
                            dirs.passed(f.1),
                            filled.io,
                        );
                        lemma_ends_with(world, name, scan, next, whole, end);
                        end
                    },
                    _ => (scan.found, io),
                }
            },
            Outcome::Done(false) => lemma_dirs_end(
                world,
                name,
                scan,
                dirs.passed(false),
                run.io,
            ),
            _ => (scan.found, io),
        }
    } else {
        lemma_other_dir_now(scan, dirs, io);
        if dirs.next < dirs.dirs.len() {
            lemma_dirs_end(world, name, scan, dirs.passed(false), io)
        } else {
            let found = Found { any: scan.found.any || dirs.has_file, ..scan.found };
            let next = Scan { found, ..scan.passed() };
            let end = lemma_scan_end(world, name, next, io);
            assert(module_found(world, scan.rules, scan.modules[scan.next], found));
            lemma_ends_with(world, name, scan, next, whole, end);
            end
        }
    }
}

} // verus!
