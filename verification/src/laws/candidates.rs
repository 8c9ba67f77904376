//! Every directory that a module has for a partition of the device is taken.

use vstd::prelude::*;
#[allow(unused_imports)]
use vstd::string::StringSliceAdditionalSpecFns;

use crate::bytes::{joined, lossy_text};
use crate::laws::contents::{no_partition_is_missed, partitions_stand, stands_in};
use crate::laws::device::{
    in_use, lemma_in_use, lemma_on_device, lemma_readable_kept, lemma_replaces_device, listed,
    listings_are_taken_as_they_are, on_device, partition_entry, plain_name, replaces_device,
    says_yes,
};
use crate::laws::finding::{made_in, made_of_nth, truthful, World};
use crate::laws::found::{clear_names, holds_file, holds_something, name_covered};
use crate::laws::owed::{module_holds, something_to_mount_makes_a_tree};
use crate::laws::provenance::participates;
use crate::laws::sources::{
    found_partitions, has_source, module_listed, no_source_is_missed, source_in, sourced_in,
    sources_are_as_found,
};
use crate::node::{lemma_position, position, NodeView};
use crate::overlay::{partitions_found, PartitionView};
use crate::protocol::{listing_of, Entry, FileKind, Io, Outcome, ReplyView, Request, Text};
use crate::rules::RulesView;
use crate::scan::scanned;

verus! {

/// A module that the host lists is in use.
pub open spec fn module_in_use(world: World, rules: RulesView, module: Entry<Text>) -> bool {
    &&& module.kind == Ok::<FileKind, u64>(FileKind::Dir)
    &&& in_use(world, rules, joined(rules.module_dir, module.name))
}

/// A directory is among the sources of a partition, as that of a module.
pub open spec fn source_at(
    partitions: Seq<PartitionView>,
    p: int,
    q: int,
    name: Text,
    module: Text,
    path: Text,
) -> bool {
    &&& 0 <= p < partitions.len()
    &&& partitions[p].name == name
    &&& 0 <= q < partitions[p].sources.len()
    &&& partitions[p].sources[q] == (module, path)
}

/// Every directory in the directory of a module in use is listed as a source of the partition of
/// its name, if that name is text, does not start with a dot and is not that of the scripts for
/// installing, and the partition is listed as supported and on the device.
pub proof fn every_partition_directory_is_a_source(
    world: World,
    rules: RulesView,
    k: int,
    j: int,
    io: Io,
)
    requires
        truthful(world, io, partitions_found(rules, io)),
        listed(world, rules.module_dir, k) is Some,
        module_in_use(world, rules, listed(world, rules.module_dir, k)->0),
        ({
            let module = listed(world, rules.module_dir, k)->0;
            let path = joined(rules.module_dir, module.name);
            &&& listed(world, path, j) matches Some(entry)
            &&& partition_entry(entry)
            &&& on_device(world, rules, entry.name)
            &&& says_yes(world, Request::IsDir(joined(path, entry.name)))
        }),
    ensures
        ({
            let module = listed(world, rules.module_dir, k)->0;
            let path = joined(rules.module_dir, module.name);
            let entry = listed(world, path, j)->0;
            partitions_found(rules, io).out matches Outcome::Done(found) ==> {
                &&& found matches Some(partitions)
                &&& exists|p: int, q: int| #[trigger]
                    source_at(
                        partitions,
                        p,
                        q,
                        entry.name,
                        module.name,
                        joined(path, entry.name),
                    )
            }
        }),
{
    let module = listed(world, rules.module_dir, k)->0;
    let path = joined(rules.module_dir, module.name);
    let entry = listed(world, path, j)->0;
    no_source_is_missed(world, rules, io);
    match partitions_found(rules, io).out {
        Outcome::Done(found) => {
            let modules = listing_of(world(Request::ListDir(rules.module_dir)))->Ok_0;
            listings_are_taken_as_they_are(world, rules.module_dir);
            let m = choose|m: int| 0 <= m < modules.len() && modules[m] == module;
            assert(module_listed(world, rules, modules[m], found_partitions(found)));
            lemma_in_use(world, rules, path);
            lemma_on_device(world, rules, entry.name);
            let dirs = listing_of(world(Request::ListDir(path)))->Ok_0;
            listings_are_taken_as_they_are(world, path);
            let d = choose|d: int| 0 <= d < dirs.len() && dirs[d] == entry;
            let place = joined(path, dirs[d].name);
            let partitions = found_partitions(found);
            assert(has_source(partitions, dirs[d].name, module.name, place));
            let p = choose|p: int|
                0 <= p < partitions.len() && (#[trigger] partitions[p]).name == entry.name
                    && partitions[p].sources.contains((module.name, place));
            let q = choose|q: int|
                0 <= q < partitions[p].sources.len() && partitions[p].sources[q] == (
                    module.name,
                    place,
                );
            assert(source_at(partitions, p, q, entry.name, module.name, place));
        },
        _ => {},
    }
}

/// Nothing else is a source: the name of each partition that was found is text, does not start with
/// a dot and is not that of the scripts for installing, the partition is listed as supported and on
/// the device, and each of its sources is the directory of that name in the directory of a module
/// in use.
pub proof fn only_partition_directories_are_sources(
    world: World,
    rules: RulesView,
    p: int,
    q: int,
    io: Io,
)
    requires
        truthful(world, io, partitions_found(rules, io)),
        partitions_found(rules, io).out matches Outcome::Done(Some(partitions)) && 0 <= p
            < partitions.len() && 0 <= q < partitions[p].sources.len(),
    ensures
        partitions_found(rules, io).out matches Outcome::Done(Some(partitions)) && {
            let name = partitions[p].name;
            let source = partitions[p].sources[q];
            &&& plain_name(name)
            &&& on_device(world, rules, name)
            &&& says_yes(world, Request::IsDir(source.1))
            &&& exists|k: int|
                (#[trigger] listed(world, rules.module_dir, k)) matches Some(module)
                    && module_in_use(world, rules, module) && module.name == source.0 && source.1
                    == joined(joined(rules.module_dir, module.name), name)
        },
{
    sources_are_as_found(world, rules, io);
    match partitions_found(rules, io).out {
        Outcome::Done(Some(partitions)) => {
            let modules = listing_of(world(Request::ListDir(rules.module_dir)))->Ok_0;
            assert(sourced_in(world, rules, modules, partitions[p]));
            let name = partitions[p].name;
            let source = partitions[p].sources[q];
            assert(source_in(world, rules, modules, name, source));
            lemma_on_device(world, rules, name);
            let m = choose|m: int|
                0 <= m < modules.len() && participates(
                    world,
                    rules,
                    #[trigger] modules[m],
                ) && modules[m].name == source.0 && source.1 == joined(
                    joined(rules.module_dir, source.0),
                    name,
                ) && says_yes(world, Request::IsDir(source.1));
            listings_are_taken_as_they_are(world, rules.module_dir);
            lemma_in_use(world, rules, joined(rules.module_dir, modules[m].name));
            let k = choose|k: int| #[trigger]
                listed(world, rules.module_dir, k) == Some(modules[m]);
            assert(listed(world, rules.module_dir, k) is Some);
        },
        _ => {},
    }
}

/// The directory `dir` of a module has something to mount at most `depth` levels down: anything
/// that is not a directory, or a directory that replaces the device's.
pub open spec fn brings(world: World, dir: Text, depth: nat) -> bool
    decreases depth,
{
    depth > 0 && exists|i: int|
        (#[trigger] listed(world, dir, i)) matches Some(entry) && {
            let path = joined(dir, entry.name);
            &&& world(Request::Lstat(path)) matches ReplyView::Stat(metadata)
            &&& {
                ||| metadata.kind != FileKind::Dir
                ||| replaces_device(world, path)
                ||| brings(world, joined(dir, lossy_text(entry.name)), (depth - 1) as nat)
            }
        }
}

/// What a directory brings, it holds.
proof fn lemma_brings(world: World, dir: Text, depth: nat)
    requires
        brings(world, dir, depth),
    ensures
        holds_file(world, dir, depth),
    decreases depth,
{
    let i = choose|i: int|
        (#[trigger] listed(world, dir, i)) matches Some(entry) && {
            let path = joined(dir, entry.name);
            &&& world(Request::Lstat(path)) matches ReplyView::Stat(metadata)
            &&& {
                ||| metadata.kind != FileKind::Dir
                ||| replaces_device(world, path)
                ||| brings(world, joined(dir, lossy_text(entry.name)), (depth - 1) as nat)
            }
        };
    let entry = listed(world, dir, i)->0;
    let path = joined(dir, entry.name);
    let l = world(Request::ListDir(dir))->Listing_0;
    let k = lemma_readable_kept(l, i);
    lemma_replaces_device(world, path);
    assert(made_of_nth(world, dir, k) == made_in(world, lossy_text(entry.name), path));
    if brings(world, joined(dir, lossy_text(entry.name)), (depth - 1) as nat) {
        lemma_brings(world, joined(dir, lossy_text(entry.name)), (depth - 1) as nat);
    }
    assert(made_of_nth(world, dir, k) is Some);
}

/// A module that has something to mount for a partition makes that there is a tree.
proof fn lemma_makes_a_tree(
    world: World,
    rules: RulesView,
    k: int,
    j: int,
    depth: nat,
    io: Io,
)
    requires
        clear_names(world),
        truthful(world, io, scanned(rules, io)),
        listed(world, rules.module_dir, k) is Some,
        module_in_use(world, rules, listed(world, rules.module_dir, k)->0),
        ({
            let module = listed(world, rules.module_dir, k)->0;
            let path = joined(rules.module_dir, module.name);
            &&& listed(world, path, j) matches Some(entry)
            &&& partition_entry(entry)
            &&& entry.name != "system".spec_bytes()
            &&& on_device(world, rules, entry.name)
            &&& brings(world, joined(path, entry.name), depth)
        }),
    ensures
        scanned(rules, io).out matches Outcome::Done(found) ==> found is Some,
{
    let module = listed(world, rules.module_dir, k)->0;
    let path = joined(rules.module_dir, module.name);
    let entry = listed(world, path, j)->0;
    let dir = joined(path, entry.name);
    listings_are_taken_as_they_are(world, rules.module_dir);
    listings_are_taken_as_they_are(world, path);
    let modules = listing_of(world(Request::ListDir(rules.module_dir)))->Ok_0;
    let m = choose|m: int| 0 <= m < modules.len() && modules[m] == module;
    let dirs = listing_of(world(Request::ListDir(path)))->Ok_0;
    let d = choose|d: int| 0 <= d < dirs.len() && dirs[d] == entry;
    lemma_in_use(world, rules, path);
    lemma_on_device(world, rules, entry.name);
    lemma_brings(world, dir, depth);
    assert(holds_something(world, dir));
    assert(module_holds(world, rules, modules, m)) by {
        assert(dirs[d].name == entry.name);
    }
    something_to_mount_makes_a_tree(world, rules, m, io);
}

/// One of several nodes has a name.
pub open spec fn named_at(nodes: Seq<NodeView>, i: int, name: Text) -> bool {
    0 <= i < nodes.len() && nodes[i].name == name
}

/// Every directory in the directory of a module in use has a place of its name at the root of the
/// tree, if that name is text, does not start with a dot and is neither that of the scripts for
/// installing nor that of the system, the partition is listed as supported and on the device, and
/// the directory has something to mount. Everything in the directory that the host can look at has
/// a place of its name below it.
pub proof fn every_partition_directory_has_its_place(
    world: World,
    rules: RulesView,
    k: int,
    j: int,
    depth: nat,
    io: Io,
)
    requires
        clear_names(world),
        truthful(world, io, scanned(rules, io)),
        listed(world, rules.module_dir, k) is Some,
        module_in_use(world, rules, listed(world, rules.module_dir, k)->0),
        ({
            let module = listed(world, rules.module_dir, k)->0;
            let path = joined(rules.module_dir, module.name);
            &&& listed(world, path, j) matches Some(entry)
            &&& partition_entry(entry)
            &&& entry.name != "system".spec_bytes()
            &&& on_device(world, rules, entry.name)
            &&& brings(world, joined(path, entry.name), depth)
        }),
    ensures
        ({
            let module = listed(world, rules.module_dir, k)->0;
            let path = joined(rules.module_dir, module.name);
            let entry = listed(world, path, j)->0;
            let dir = joined(path, entry.name);
            scanned(rules, io).out matches Outcome::Done(found) ==> found matches Some(tree)
                && exists|p: int| #[trigger]
                named_at(tree.children, p, entry.name) && forall|i: int|
                    (#[trigger] listed(world, dir, i)) is Some && world(
                        Request::Lstat(joined(dir, listed(world, dir, i)->0.name)),
                    ) is Stat ==> exists|c: int| #[trigger]
                        named_at(
                            tree.children[p].children,
                            c,
                            lossy_text(listed(world, dir, i)->0.name),
                        )
        }),
{
    let module = listed(world, rules.module_dir, k)->0;
    let path = joined(rules.module_dir, module.name);
    let entry = listed(world, path, j)->0;
    let dir = joined(path, entry.name);
    no_partition_is_missed(world, rules, io);
    lemma_makes_a_tree(world, rules, k, j, depth, io);
    match scanned(rules, io).out {
        Outcome::Done(Some(tree)) => {
            let modules = listing_of(world(Request::ListDir(rules.module_dir)))->Ok_0;
            listings_are_taken_as_they_are(world, rules.module_dir);
            let m = choose|m: int| 0 <= m < modules.len() && modules[m] == module;
            assert(partitions_stand(world, rules, modules[m], tree));
            lemma_in_use(world, rules, path);
            lemma_on_device(world, rules, entry.name);
            lemma_brings(world, dir, depth);
            assert(holds_something(world, dir));
            let dirs = listing_of(world(Request::ListDir(path)))->Ok_0;
            listings_are_taken_as_they_are(world, path);
            let d = choose|d: int| 0 <= d < dirs.len() && dirs[d] == entry;
            assert(stands_in(world, joined(path, dirs[d].name), dirs[d].name, tree));
            lemma_position(tree.children, entry.name);
            let p = position(tree.children, entry.name)->0;
            assert(named_at(tree.children, p, entry.name));
            let node = tree.children[p];
            let files = listing_of(world(Request::ListDir(dir)))->Ok_0;
            listings_are_taken_as_they_are(world, dir);
            assert forall|i: int|
                (#[trigger] listed(world, dir, i)) is Some && world(
                    Request::Lstat(joined(dir, listed(world, dir, i)->0.name)),
                ) is Stat implies exists|c: int| #[trigger]
                named_at(node.children, c, lossy_text(listed(world, dir, i)->0.name)) by {
                let item = listed(world, dir, i)->0;
                let f = choose|f: int| 0 <= f < files.len() && files[f] == item;
                assert(name_covered(world, dir, files[f], node));
                lemma_position(node.children, lossy_text(item.name));
                let c = position(node.children, lossy_text(item.name))->0;
                assert(named_at(node.children, c, lossy_text(item.name)));
            }
        },
        _ => {},
    }
}

} // verus!
