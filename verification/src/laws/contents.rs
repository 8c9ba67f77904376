//! No file of a module is missed.

use vstd::prelude::*;
#[allow(unused_imports)]
use vstd::string::StringSliceAdditionalSpecFns;

use crate::bytes::{joined, lossy_text};
use crate::laws::collection::{collected_tree_is_well_formed, is_builtin, lemma_names};
use crate::laws::finding::{
    covers, covers_entry, lemma_truthful_ask, made_in, truthful, World,
};
use crate::laws::found::{
    all_bring_dirs, clear_names, found_provided, holds_something, keeps_names,
    lemma_absorbed_names, lemma_covered_names, lemma_scan_end, module_found, named_in,
    names_covered, only_dirs, partition_found,
};
use crate::laws::provenance::plain_world;
use crate::laws::reading::{module_queries, scan_from_only_reads};
use crate::laws::scanning::{lemma_promote_now, promoted_in, stands_alone};
use crate::laws::sources::{supported_in, takes_part_in};
use crate::laws::tree::sound;
use crate::node::{
    distinct, lemma_position, lemma_position_is, position, NodeFileType, NodeView,
};
use crate::protocol::{
    ask, flag_of, listing_of, Entry, Error, FileKind, Io, Outcome, Request, Text,
};
use crate::rules::{device_dir, RulesView};
use crate::scan::{
    builtin_partitions, may_be_other_partition, nothing_found, promote_dir, promote_from,
    promote_link, promoted, scan_from, scanned, tree_of, Found, Scan,
};

verus! {

/// An entry of a module's directory for the system partition has its place below a node, unless it
/// is one of those that may be taken to the root.
pub open spec fn holds_entry(world: World, dir: Text, entry: Entry<Text>, node: NodeView) -> bool {
    is_builtin(lossy_text(entry.name)) || covers_entry(world, dir, entry, node)
}

/// All entries of a module's directory for the system partition have their places below a node.
pub open spec fn holds_dir(world: World, dir: Text, node: NodeView) -> bool {
    listing_of(world(Request::ListDir(dir))) matches Ok(entries) && forall|j: int|
        0 <= j < entries.len() ==> holds_entry(world, dir, #[trigger] entries[j], node)
}

/// A module's files for the system partition have their places below a node, if the module takes
/// part and has any.
pub open spec fn holds_module(
    world: World,
    rules: RulesView,
    module: Entry<Text>,
    node: NodeView,
) -> bool {
    let path = joined(rules.module_dir, module.name);
    let dir = joined(path, "system".spec_bytes());
    module.kind == Ok::<FileKind, u64>(FileKind::Dir) && takes_part_in(world, rules, path)
        && flag_of(world(Request::IsDir(dir))) ==> holds_dir(world, dir, node)
}

/// What has its place below one node has it below another.
spec fn keeps_holding(world: World, node: NodeView, other: NodeView) -> bool {
    forall|dir: Text, entry: Entry<Text>| #[trigger]
        holds_entry(world, dir, entry, node) ==> holds_entry(world, dir, entry, other)
}

/// What one node holds, another holds that keeps it.
proof fn lemma_keeps_dir(world: World, dir: Text, node: NodeView, other: NodeView)
    requires
        holds_dir(world, dir, node),
        keeps_holding(world, node, other),
    ensures
        holds_dir(world, dir, other),
{
    let entries = listing_of(world(Request::ListDir(dir)))->Ok_0;
    assert forall|j: int| 0 <= j < entries.len() implies holds_entry(
        world,
        dir,
        #[trigger] entries[j],
        other,
    ) by {
        assert(holds_entry(world, dir, entries[j], node));
    }
}

/// Taking a partition to the root leaves all other files for the system partition in place.
proof fn lemma_promotion_keeps(world: World, found: Found, k: int)
    requires
        0 <= k < 5,
    ensures
        keeps_holding(
            world,
            found.system,
            promoted(found, builtin_partitions()[k].0).system,
        ),
{
    let name = builtin_partitions()[k].0;
    let node = found.system;
    let other = promoted(found, name).system;
    lemma_position(node.children, name);
    match position(node.children, name) {
        Some(m) => {
            assert forall|dir: Text, entry: Entry<Text>| #[trigger]
                holds_entry(world, dir, entry, node) implies holds_entry(
                world,
                dir,
                entry,
                other,
            ) by {
                let n = lossy_text(entry.name);
                if !is_builtin(n) && made_in(world, n, joined(dir, entry.name)) is Some {
                    let i = choose|i: int|
                        0 <= i < node.children.len() && (#[trigger] node.children[i]).name == n && (
                        node.children[i].file_type == NodeFileType::Directory ==> covers(
                            world,
                            joined(dir, node.children[i].name),
                            node.children[i],
                        ));
                    assert(builtin_partitions()[k].0 != n);
                    let j = if i < m { i } else { i - 1 };
                    assert(other.children[j] == node.children[i]);
                }
            }
        },
        None => {},
    }
}

/// The node for the system partition in a tree.
pub open spec fn system_of(tree: NodeView) -> NodeView {
    tree.children[position(tree.children, "system".spec_bytes())->0]
}

/// Making the tree leaves the files for the system partition in place.
proof fn lemma_promotions_keep(world: World, k: int, found: Found, io: Io)
    requires
        found.system.name == "system".spec_bytes(),
    ensures
        promote_from(k, found, io).out matches Outcome::Done(tree) ==> {
            &&& tree is Some
            &&& keeps_holding(world, found.system, system_of(tree->0))
        },
    decreases 5 - k,
{
    if k < 0 || k >= 5 {
        lemma_system_of(found);
    } else {
        let partition = builtin_partitions()[k];
        let taken = promoted(found, partition.0);
        let run = ask(io, Request::IsDir(device_dir(partition.0)));
        let next = ask(
            run.io,
            Request::IsSymlink(joined("/system".spec_bytes(), partition.0)),
        );
        lemma_promotion_keeps(world, found, k);
        lemma_promotions_keep(world, k + 1, found, run.io);
        lemma_promotions_keep(world, k + 1, found, next.io);
        lemma_promotions_keep(world, k + 1, taken, run.io);
        lemma_promotions_keep(world, k + 1, taken, next.io);
        match run.out {
            Outcome::Done(reply) => {
                let whole = promote_dir(k, found, reply, run.io);
                assert(promote_from(k, found, io) == whole);
                if flag_of(reply) && partition.1 {
                    match next.out {
                        Outcome::Done(link) => {
                            assert(whole == promote_link(k, found, link, next.io));
                        },
                        _ => {},
                    }
                }
            },
            _ => {},
        }
    }
}

/// Each file that a module which takes part has for the system partition has its place in the tree,
/// however deep it stands. Only the directories of partitions that may be taken to the root are
/// left out of account.
pub proof fn no_system_file_is_missed(world: World, rules: RulesView, io: Io)
    requires
        truthful(world, io, scanned(rules, io)),
    ensures
        scanned(rules, io).out matches Outcome::Done(Some(tree)) ==> {
            &&& position(tree.children, "system".spec_bytes()) is Some
            &&& listing_of(world(Request::ListDir(rules.module_dir))) matches Ok(modules)
                && forall|k: int|
                0 <= k < modules.len() ==> holds_module(
                    world,
                    rules,
                    #[trigger] modules[k],
                    system_of(tree),
                )
        },
{
    collected_tree_is_well_formed(rules, io);
    let end = lemma_scanned(world, "system".spec_bytes(), rules, io);
    match scanned(rules, io).out {
        Outcome::Done(Some(tree)) => {
            lemma_promotions_keep(world, 0, end.0, end.1);
            let modules = listing_of(world(Request::ListDir(rules.module_dir)))->Ok_0;
            assert forall|k: int| 0 <= k < modules.len() implies holds_module(
                world,
                rules,
                #[trigger] modules[k],
                system_of(tree),
            ) by {
                assert(module_found(world, rules, modules[k], end.0));
                let path = joined(rules.module_dir, modules[k].name);
                let dir = joined(path, "system".spec_bytes());
                if covers(world, dir, end.0.system) {
                    lemma_covering_holds(world, dir, end.0.system);
                    lemma_keeps_dir(world, dir, end.0.system, system_of(tree));
                }
            }
        },
        _ => {},
    }
}

/// What was found of all modules before the tree was made of it.
pub proof fn lemma_scanned(world: World, name: Text, rules: RulesView, io: Io) -> (end: (Found, Io))
    requires
        truthful(world, io, scanned(rules, io)),
    ensures
        scanned(rules, io).out matches Outcome::Done(Some(_)) ==> {
            let modules = listing_of(world(Request::ListDir(rules.module_dir)))->Ok_0;
            &&& listing_of(world(Request::ListDir(rules.module_dir))) is Ok
            &&& scanned(rules, io) == promote_from(0, end.0, end.1)
            &&& truthful(world, end.1, scanned(rules, io))
            &&& end.0.system.name == "system".spec_bytes()
            &&& sound(end.0.system)
            &&& forall|k: int|
                0 <= k < modules.len() ==> module_found(
                    world,
                    rules,
                    #[trigger] modules[k],
                    end.0,
                )
            &&& all_bring_dirs(world, rules, modules, 0, name) ==> only_dirs(
                name,
                end.0.system.children,
            )
            &&& plain_world(world) ==> found_provided(world, rules, modules, end.0)
        },
{
    lemma_names();
    let whole = scanned(rules, io);
    let request = Request::ListDir(rules.module_dir);
    let run = ask(io, request);
    match run.out {
        Outcome::Done(reply) => match listing_of(reply) {
            Ok(modules) => {
                let scan = Scan { rules, modules, next: 0, found: nothing_found() };
                assert(whole == scan_from(scan, run.io));
                scan_from_only_reads(scan, run.io);
                lemma_truthful_ask(world, io, request, whole, module_queries());
                assert(listing_of(world(request)) == Ok::<Seq<Entry<Text>>, Error<Text>>(modules));
                assert(found_provided(world, rules, modules, scan.found));
                let end = lemma_scan_end(world, name, scan, run.io);
                assert forall|k: int|
                    0 <= k < modules.len() && whole.out is Done && whole.out->Done_0 is Some implies
                    module_found(world, rules, #[trigger] modules[k], end.0) by {
                    assert(scan.modules[k] == modules[k]);
                }
                end
            },
            Err(_) => (nothing_found(), io),
        },
        _ => (nothing_found(), io),
    }
}

/// A node that covers a directory holds it.
proof fn lemma_covering_holds(world: World, dir: Text, node: NodeView)
    requires
        covers(world, dir, node),
    ensures
        holds_dir(world, dir, node),
{
    let entries = listing_of(world(Request::ListDir(dir)))->Ok_0;
    assert forall|j: int| 0 <= j < entries.len() implies holds_entry(
        world,
        dir,
        #[trigger] entries[j],
        node,
    ) by {
        assert(covers_entry(world, dir, entries[j], node));
    }
}

/// The files for the `m`th of the partitions that may be taken to the root go there if the
/// partition stands alone, and stay below those for the system partition otherwise.
proof fn lemma_promotions_name(world: World, m: int, dir: Text, k: int, found: Found, io: Io)
    requires
        0 <= m < 5,
        0 <= k <= 5,
        found.system.name == "system".spec_bytes(),
        distinct(found.system.children),
        truthful(world, io, promote_from(k, found, io)),
    ensures
        promote_from(k, found, io).out matches Outcome::Done(tree) ==> {
            let name = builtin_partitions()[m].0;
            &&& tree is Some
            &&& keeps_names(world, found.root.children, tree->0.children)
            &&& k <= m && stands_alone(world, m) && named_in(
                world,
                dir,
                name,
                found.system.children,
            ) ==> named_in(world, dir, name, tree->0.children)
            &&& !stands_alone(world, m) ==> forall|entry: Entry<Text>|
                lossy_text(entry.name) == name && covers_entry(
                    world,
                    dir,
                    entry,
                    found.system,
                ) ==> #[trigger] covers_entry(world, dir, entry, system_of(tree->0))
        },
    decreases 5 - k,
{
    let name = builtin_partitions()[m].0;
    let whole = promote_from(k, found, io);
    lemma_names();
    if k >= 5 {
        lemma_tree_names(world, found);
        lemma_promotions_keep(world, 5, found, io);
        lemma_system_of(found);
    } else {
        let next = lemma_promote_now(world, k, found, io);
        let taken = promoted_in(world, k, found);
        lemma_promoted_names(world, found, k, m, dir);
        if !(whole.out is Waiting) {
            lemma_promotions_name(world, m, dir, k + 1, taken, next);
            match whole.out {
                Outcome::Done(Some(tree)) => {
                    assert(keeps_names(world, found.root.children, tree.children)) by {
                        assert forall|d: Text, n: Text| #[trigger]
                            named_in(world, d, n, found.root.children) && n
                                != "system".spec_bytes() implies named_in(
                            world,
                            d,
                            n,
                            tree.children,
                        ) by {
                            assert(named_in(world, d, n, taken.root.children));
                        }
                    }
                    if k == m && stands_alone(world, m) && named_in(
                        world,
                        dir,
                        name,
                        found.system.children,
                    ) {
                        assert(named_in(world, dir, name, taken.root.children));
                        assert(builtin_partitions()[m].0 != "system".spec_bytes());
                    }
                    if !stands_alone(world, m) {
                        assert forall|entry: Entry<Text>|
                            lossy_text(entry.name) == name && covers_entry(
                                world,
                                dir,
                                entry,
                                found.system,
                            ) implies #[trigger] covers_entry(
                            world,
                            dir,
                            entry,
                            system_of(tree),
                        ) by {
                            assert(covers_entry(world, dir, entry, taken.system));
                        }
                    }
                },
                _ => {},
            }
        }
    }
}

/// The node for the system partition in the tree that is made in the end.
pub proof fn lemma_system_of(found: Found)
    requires
        found.system.name == "system".spec_bytes(),
    ensures
        system_of(tree_of(found)) == found.system,
{
    let name = "system".spec_bytes();
    let tree = tree_of(found);
    lemma_position(found.root.children, name);
    match position(found.root.children, name) {
        Some(p) => {
            assert(tree.children[p].name == name);
            lemma_position_is(tree.children, name, p);
        },
        None => {
            let p = found.root.children.len() as int;
            assert(tree.children[p].name == name);
            lemma_position_is(tree.children, name, p);
        },
    }
}

/// The tree that is made in the end keeps the names of the partitions.
proof fn lemma_tree_names(world: World, found: Found)
    requires
        found.system.name == "system".spec_bytes(),
    ensures
        keeps_names(world, found.root.children, tree_of(found).children),
{
    let nodes = found.root.children;
    let all = tree_of(found).children;
    lemma_position(nodes, "system".spec_bytes());
    assert forall|dir: Text, name: Text| #[trigger]
        named_in(world, dir, name, nodes) && name != "system".spec_bytes() implies named_in(
        world,
        dir,
        name,
        all,
    ) by {
        let i = choose|i: int|
            0 <= i < nodes.len() && (#[trigger] nodes[i]).name == name && names_covered(
                world,
                dir,
                nodes[i],
            );
        assert(all[i] == nodes[i]);
    }
}

/// What taking the `k`th partition to the root means for the `m`th one.
proof fn lemma_promoted_names(world: World, found: Found, k: int, m: int, dir: Text)
    requires
        0 <= k < 5,
        0 <= m < 5,
        distinct(found.system.children),
    ensures
        ({
            let name = builtin_partitions()[m].0;
            let taken = promoted_in(world, k, found);
            &&& taken.system.name == found.system.name
            &&& distinct(taken.system.children)
            &&& keeps_names(world, found.root.children, taken.root.children)
            &&& named_in(world, dir, name, found.system.children) ==> if k == m && stands_alone(
                world,
                m,
            ) {
                named_in(world, dir, name, taken.root.children)
            } else {
                named_in(world, dir, name, taken.system.children)
            }
            &&& forall|entry: Entry<Text>|
                lossy_text(entry.name) == name && (k != m || !stands_alone(world, m))
                    && covers_entry(world, dir, entry, found.system) ==> #[trigger] covers_entry(
                    world,
                    dir,
                    entry,
                    taken.system,
                )
        }),
{
    lemma_names();
    let name = builtin_partitions()[m].0;
    let gone = builtin_partitions()[k].0;
    let nodes = found.system.children;
    lemma_position(nodes, gone);
    if stands_alone(world, k) && position(nodes, gone) is Some {
        let p = position(nodes, gone)->0;
        let taken = promoted(found, gone);
        let left = taken.system.children;
        assert(left == nodes.remove(p));
        lemma_absorbed_names(world, found.root.children, nodes[p]);
        if k == m {
            if named_in(world, dir, name, nodes) {
                let i = choose|i: int|
                    0 <= i < nodes.len() && (#[trigger] nodes[i]).name == name && names_covered(
                        world,
                        dir,
                        nodes[i],
                    );
                assert(i == p);
            }
        } else {
            assert(gone != name) by {
                if k < m {
                    assert(builtin_partitions()[k].0 != builtin_partitions()[m].0);
                } else {
                    assert(builtin_partitions()[m].0 != builtin_partitions()[k].0);
                }
            }
            if named_in(world, dir, name, nodes) {
                let i = choose|i: int|
                    0 <= i < nodes.len() && (#[trigger] nodes[i]).name == name && names_covered(
                        world,
                        dir,
                        nodes[i],
                    );
                let j = if i < p { i } else { i - 1 };
                assert(left[j] == nodes[i]);
            }
            assert forall|entry: Entry<Text>|
                lossy_text(entry.name) == name && covers_entry(
                    world,
                    dir,
                    entry,
                    found.system,
                ) implies #[trigger] covers_entry(world, dir, entry, taken.system) by {
                if made_in(world, name, joined(dir, entry.name)) is Some {
                    let i = choose|i: int|
                        0 <= i < nodes.len() && (#[trigger] nodes[i]).name == name && (
                        nodes[i].file_type == NodeFileType::Directory ==> covers(
                            world,
                            joined(dir, nodes[i].name),
                            nodes[i],
                        ));
                    let j = if i < p { i } else { i - 1 };
                    assert(left[j] == nodes[i]);
                }
            }
        }
    }
}

/// There is a node of that name in a tree, and it covers the names in the directory `dir`.
pub open spec fn stands_in(world: World, dir: Text, name: Text, tree: NodeView) -> bool {
    &&& position(tree.children, name) is Some
    &&& names_covered(world, dir, tree.children[position(tree.children, name)->0])
}

/// Where no two nodes have the same name, the one that covers the names is the one to be found.
proof fn lemma_stands_in(world: World, dir: Text, name: Text, tree: NodeView)
    requires
        distinct(tree.children),
        named_in(world, dir, name, tree.children),
    ensures
        stands_in(world, dir, name, tree),
{
    let nodes = tree.children;
    lemma_position(nodes, name);
    let i = choose|i: int|
        0 <= i < nodes.len() && (#[trigger] nodes[i]).name == name && names_covered(
            world,
            dir,
            nodes[i],
        );
    let p = position(nodes, name)->0;
    assert(nodes[p].name == nodes[i].name);
    assert(p == i);
}

/// The directories that a module has for supported partitions other than the system partition
/// stand in a tree, as far as they hold something to mount and the module takes part.
pub open spec fn partitions_stand(
    world: World,
    rules: RulesView,
    module: Entry<Text>,
    tree: NodeView,
) -> bool {
    let path = joined(rules.module_dir, module.name);
    module.kind == Ok::<FileKind, u64>(FileKind::Dir) && takes_part_in(world, rules, path) ==> {
        &&& listing_of(world(Request::ListDir(path))) matches Ok(dirs) && forall|j: int|
            0 <= j < dirs.len() && may_be_other_partition(#[trigger] dirs[j]) && supported_in(
                world,
                rules,
                dirs[j].name,
            ) && holds_something(world, joined(path, dirs[j].name)) ==> stands_in(
                world,
                joined(path, dirs[j].name),
                dirs[j].name,
                tree,
            )
    }
}

/// No directory for a supported partition is missed that a module which takes part has beside the
/// one for the system partition: if there is something to mount in it, the partition stands in the
/// tree, and every entry of the directory has a child of its name there.
pub proof fn no_partition_is_missed(world: World, rules: RulesView, io: Io)
    requires
        clear_names(world),
        truthful(world, io, scanned(rules, io)),
    ensures
        scanned(rules, io).out matches Outcome::Done(Some(tree)) ==> {
            listing_of(world(Request::ListDir(rules.module_dir))) matches Ok(modules)
                && forall|k: int|
                0 <= k < modules.len() ==> partitions_stand(
                    world,
                    rules,
                    #[trigger] modules[k],
                    tree,
                )
        },
{
    collected_tree_is_well_formed(rules, io);
    let end = lemma_scanned(world, "system".spec_bytes(), rules, io);
    match scanned(rules, io).out {
        Outcome::Done(Some(tree)) => {
            lemma_promotions_name(world, 0, rules.module_dir, 0, end.0, end.1);
            let modules = listing_of(world(Request::ListDir(rules.module_dir)))->Ok_0;
            assert forall|k: int| 0 <= k < modules.len() implies partitions_stand(
                world,
                rules,
                #[trigger] modules[k],
                tree,
            ) by {
                let path = joined(rules.module_dir, modules[k].name);
                assert(module_found(world, rules, modules[k], end.0));
                if modules[k].kind == Ok::<FileKind, u64>(FileKind::Dir) && takes_part_in(
                    world,
                    rules,
                    path,
                ) {
                    let dirs = listing_of(world(Request::ListDir(path)))->Ok_0;
                    assert forall|j: int|
                        0 <= j < dirs.len() && may_be_other_partition(#[trigger] dirs[j])
                            && supported_in(world, rules, dirs[j].name) && holds_something(
                            world,
                            joined(path, dirs[j].name),
                        ) implies stands_in(
                        world,
                        joined(path, dirs[j].name),
                        dirs[j].name,
                        tree,
                    ) by {
                        let dir = joined(path, dirs[j].name);
                        assert(partition_found(
                            world,
                            rules,
                            path,
                            dirs[j],
                            end.0.root.children,
                        ));
                        assert(named_in(world, dir, dirs[j].name, end.0.root.children));
                        lemma_stands_in(world, dir, dirs[j].name, tree);
                    }
                }
            }
        },
        _ => {},
    }
}

/// What a module has below its files for the system partition for the `m`th of the partitions that
/// may be taken to the root has its place in a tree, if the module takes part: at the root if the
/// partition stands alone on the device, and below the system partition otherwise.
pub open spec fn builtin_stands(
    world: World,
    rules: RulesView,
    module: Entry<Text>,
    m: int,
    tree: NodeView,
) -> bool {
    let name = builtin_partitions()[m].0;
    let path = joined(rules.module_dir, module.name);
    let dir = joined(path, "system".spec_bytes());
    module.kind == Ok::<FileKind, u64>(FileKind::Dir) && takes_part_in(world, rules, path)
        && flag_of(world(Request::IsDir(dir))) ==> {
        &&& listing_of(world(Request::ListDir(dir))) matches Ok(entries) && forall|j: int|
            0 <= j < entries.len() && lossy_text((#[trigger] entries[j]).name) == name && made_in(
                world,
                name,
                joined(dir, entries[j].name),
            ) is Some ==> if stands_alone(world, m) {
                stands_in(world, joined(dir, name), name, tree)
            } else {
                covers_entry(world, dir, entries[j], system_of(tree))
            }
    }
}

/// No directory is missed that a module which takes part has below its files for the system
/// partition for one of the partitions that may be taken to the root, as long as all modules have
/// a directory there and not a file of that name.
pub proof fn no_built_in_partition_is_missed(world: World, rules: RulesView, m: int, io: Io)
    requires
        0 <= m < 5,
        truthful(world, io, scanned(rules, io)),
        listing_of(world(Request::ListDir(rules.module_dir))) matches Ok(modules)
            ==> all_bring_dirs(world, rules, modules, 0, builtin_partitions()[m].0),
    ensures
        scanned(rules, io).out matches Outcome::Done(Some(tree)) ==> {
            listing_of(world(Request::ListDir(rules.module_dir))) matches Ok(modules)
                && forall|k: int|
                0 <= k < modules.len() ==> builtin_stands(
                    world,
                    rules,
                    #[trigger] modules[k],
                    m,
                    tree,
                )
        },
{
    let name = builtin_partitions()[m].0;
    collected_tree_is_well_formed(rules, io);
    let end = lemma_scanned(world, name, rules, io);
    match scanned(rules, io).out {
        Outcome::Done(Some(tree)) => {
            let modules = listing_of(world(Request::ListDir(rules.module_dir)))->Ok_0;
            assert forall|k: int| 0 <= k < modules.len() implies builtin_stands(
                world,
                rules,
                #[trigger] modules[k],
                m,
                tree,
            ) by {
                let path = joined(rules.module_dir, modules[k].name);
                let dir = joined(path, "system".spec_bytes());
                assert(module_found(world, rules, modules[k], end.0));
                if modules[k].kind == Ok::<FileKind, u64>(FileKind::Dir) && takes_part_in(
                    world,
                    rules,
                    path,
                ) && flag_of(world(Request::IsDir(dir))) {
                    lemma_builtin_stands(world, m, dir, end.0, end.1, tree);
                }
            }
        },
        _ => {},
    }
}

/// What one module has for the `m`th of those partitions has its place in the tree.
proof fn lemma_builtin_stands(
    world: World,
    m: int,
    dir: Text,
    found: Found,
    io: Io,
    tree: NodeView,
)
    requires
        0 <= m < 5,
        found.system.name == "system".spec_bytes(),
        sound(found.system),
        sound(tree),
        covers(world, dir, found.system),
        only_dirs(builtin_partitions()[m].0, found.system.children),
        truthful(world, io, promote_from(0, found, io)),
        promote_from(0, found, io).out == Outcome::Done(Some(tree)),
    ensures
        ({
            let name = builtin_partitions()[m].0;
            let entries = listing_of(world(Request::ListDir(dir)))->Ok_0;
            &&& listing_of(world(Request::ListDir(dir))) is Ok
            &&& forall|j: int|
                0 <= j < entries.len() && lossy_text((#[trigger] entries[j]).name) == name
                    && made_in(
                    world,
                    name,
                    joined(dir, entries[j].name),
                ) is Some ==> if stands_alone(world, m) {
                    stands_in(world, joined(dir, name), name, tree)
                } else {
                    covers_entry(world, dir, entries[j], system_of(tree))
                }
        }),
{
    let name = builtin_partitions()[m].0;
    let below = joined(dir, name);
    let nodes = found.system.children;
    let entries = listing_of(world(Request::ListDir(dir)))->Ok_0;
    lemma_promotions_name(world, m, below, 0, found, io);
    lemma_promotions_name(world, m, dir, 0, found, io);
    assert forall|j: int|
        0 <= j < entries.len() && lossy_text((#[trigger] entries[j]).name) == name && made_in(
            world,
            name,
            joined(dir, entries[j].name),
        ) is Some implies if stands_alone(world, m) {
        stands_in(world, below, name, tree)
    } else {
        covers_entry(world, dir, entries[j], system_of(tree))
    } by {
        assert(covers_entry(world, dir, entries[j], found.system));
        if stands_alone(world, m) {
            let i = choose|i: int|
                0 <= i < nodes.len() && (#[trigger] nodes[i]).name == name && (nodes[i].file_type
                    == NodeFileType::Directory ==> covers(
                    world,
                    joined(dir, nodes[i].name),
                    nodes[i],
                ));
            lemma_covered_names(world, below, nodes[i]);
            assert(named_in(world, below, name, nodes));
            lemma_stands_in(world, below, name, tree);
        }
    }
}

} // verus!
