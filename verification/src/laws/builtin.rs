//! Partitions whose files modules may keep below those for the system partition.

use vstd::prelude::*;
#[allow(unused_imports)]
use vstd::string::StringSliceAdditionalSpecFns;

use crate::bytes::{joined, lossy_text};
use crate::laws::candidates::{module_in_use, named_at};
use crate::laws::collection::{collected_tree_is_well_formed, lemma_names};
use crate::laws::contents::{
    builtin_stands, lemma_scanned, lemma_system_of, no_built_in_partition_is_missed, stands_in,
    system_of,
};
use crate::laws::device::{lemma_in_use, listed, listings_are_taken_as_they_are, says_yes};
use crate::laws::finding::{covers_entry, made_in, truthful, World};
use crate::laws::found::{all_bring_dirs, name_covered};
use crate::laws::scanning::{lemma_promote_now, promoted_in, stands_alone};
use crate::node::{distinct, lemma_position, position, NodeView};
use crate::protocol::{listing_of, Io, Outcome, Request, Text};
use crate::rules::RulesView;
use crate::scan::{builtin_partitions, promote_from, promoted, scanned, Found};

verus! {

/// A partition that the device has to have a link for in its system directory, if it is to be one
/// of its own.
pub open spec fn needs_link(name: Text) -> bool {
    ||| name == "vendor".spec_bytes()
    ||| name == "system_ext".spec_bytes()
    ||| name == "product".spec_bytes()
}

/// A partition whose files modules may keep below those for the system partition.
pub open spec fn built_in(name: Text) -> bool {
    ||| needs_link(name)
    ||| name == "odm".spec_bytes()
    ||| name == "oem".spec_bytes()
}

/// The device has a partition of that name at its root; for some names the system directory also
/// has to have a link of that name.
pub open spec fn own_partition(world: World, name: Text) -> bool {
    &&& says_yes(world, Request::IsDir(joined("/".spec_bytes(), name)))
    &&& needs_link(name) ==> says_yes(
        world,
        Request::IsSymlink(joined("/system".spec_bytes(), name)),
    )
}

/// The place of a built-in partition in the list of them.
proof fn lemma_built_in(world: World, name: Text) -> (m: int)
    requires
        built_in(name),
    ensures
        0 <= m < 5,
        builtin_partitions()[m].0 == name,
        stands_alone(world, m) == own_partition(world, name),
{
    lemma_names();
    let list = builtin_partitions();
    assert(list[0].0 == "vendor".spec_bytes());
    assert(list[1].0 == "system_ext".spec_bytes());
    assert(list[2].0 == "product".spec_bytes());
    assert(list[3].0 == "odm".spec_bytes());
    assert(list[4].0 == "oem".spec_bytes());
    if name == "vendor".spec_bytes() {
        0
    } else if name == "system_ext".spec_bytes() {
        1
    } else if name == "product".spec_bytes() {
        2
    } else if name == "odm".spec_bytes() {
        3
    } else {
        4
    }
}

/// Everything in a directory that the host can look at has a place of its name among several nodes.
pub open spec fn all_named(world: World, dir: Text, nodes: Seq<NodeView>) -> bool {
    forall|i: int|
        (#[trigger] listed(world, dir, i)) is Some && world(
            Request::Lstat(joined(dir, listed(world, dir, i)->0.name)),
        ) is Stat ==> exists|c: int| #[trigger]
            named_at(nodes, c, lossy_text(listed(world, dir, i)->0.name))
}

/// What a module in use keeps for a built-in partition below its files for the system partition
/// has its place in the tree: at the root if the device has that partition on its own, and below
/// the system partition otherwise.
pub proof fn built_in_partitions_have_their_place(
    world: World,
    rules: RulesView,
    name: Text,
    k: int,
    j: int,
    io: Io,
)
    requires
        built_in(name),
        truthful(world, io, scanned(rules, io)),
        listing_of(world(Request::ListDir(rules.module_dir))) matches Ok(modules)
            ==> all_bring_dirs(world, rules, modules, 0, name),
        listed(world, rules.module_dir, k) is Some,
        module_in_use(world, rules, listed(world, rules.module_dir, k)->0),
        ({
            let module = listed(world, rules.module_dir, k)->0;
            let dir = joined(joined(rules.module_dir, module.name), "system".spec_bytes());
            &&& says_yes(world, Request::IsDir(dir))
            &&& listed(world, dir, j) matches Some(entry)
            &&& lossy_text(entry.name) == name
            &&& world(Request::Lstat(joined(dir, entry.name))) is Stat
        }),
    ensures
        ({
            let module = listed(world, rules.module_dir, k)->0;
            let dir = joined(joined(rules.module_dir, module.name), "system".spec_bytes());
            scanned(rules, io).out matches Outcome::Done(Some(tree)) ==> {
                if own_partition(world, name) {
                    exists|p: int| #[trigger]
                        named_at(tree.children, p, name) && all_named(
                            world,
                            joined(dir, name),
                            tree.children[p].children,
                        )
                } else {
                    exists|p: int| #[trigger] named_at(system_of(tree).children, p, name)
                }
            }
        }),
{
    let module = listed(world, rules.module_dir, k)->0;
    let path = joined(rules.module_dir, module.name);
    let dir = joined(path, "system".spec_bytes());
    let entry = listed(world, dir, j)->0;
    let m = lemma_built_in(world, name);
    no_built_in_partition_is_missed(world, rules, m, io);
    match scanned(rules, io).out {
        Outcome::Done(Some(tree)) => {
            let modules = listing_of(world(Request::ListDir(rules.module_dir)))->Ok_0;
            listings_are_taken_as_they_are(world, rules.module_dir);
            let a = choose|a: int| 0 <= a < modules.len() && modules[a] == module;
            assert(builtin_stands(world, rules, modules[a], m, tree));
            lemma_in_use(world, rules, path);
            let entries = listing_of(world(Request::ListDir(dir)))->Ok_0;
            listings_are_taken_as_they_are(world, dir);
            let b = choose|b: int| 0 <= b < entries.len() && entries[b] == entry;
            assert(lossy_text(entries[b].name) == name);
            if own_partition(world, name) {
                let inner = joined(dir, name);
                assert(stands_in(world, inner, name, tree));
                lemma_position(tree.children, name);
                let p = position(tree.children, name)->0;
                let node = tree.children[p];
                assert(named_at(tree.children, p, name));
                let files = listing_of(world(Request::ListDir(inner)))->Ok_0;
                listings_are_taken_as_they_are(world, inner);
                assert forall|i: int|
                    (#[trigger] listed(world, inner, i)) is Some && world(
                        Request::Lstat(joined(inner, listed(world, inner, i)->0.name)),
                    ) is Stat implies exists|c: int| #[trigger]
                    named_at(node.children, c, lossy_text(listed(world, inner, i)->0.name)) by {
                    let item = listed(world, inner, i)->0;
                    let f = choose|f: int| 0 <= f < files.len() && files[f] == item;
                    assert(name_covered(world, inner, files[f], node));
                    lemma_position(node.children, lossy_text(item.name));
                    let c = position(node.children, lossy_text(item.name))->0;
                    assert(named_at(node.children, c, lossy_text(item.name)));
                }
            } else {
                let system = system_of(tree);
                assert(covers_entry(world, dir, entries[b], system));
                assert(made_in(world, name, joined(dir, entries[b].name)) is Some);
                let c = choose|c: int|
                    0 <= c < system.children.len() && (#[trigger] system.children[c]).name
                        == lossy_text(entries[b].name);
                assert(named_at(system.children, c, name));
            }
        },
        _ => {},
    }
}

/// None of several nodes has a name.
pub open spec fn none_named(nodes: Seq<NodeView>, name: Text) -> bool {
    forall|i: int| 0 <= i < nodes.len() ==> (#[trigger] nodes[i]).name != name
}

/// Taking a partition to the root leaves none of that name behind.
proof fn lemma_taken_away(found: Found, name: Text)
    requires
        distinct(found.system.children),
    ensures
        none_named(promoted(found, name).system.children, name),
        distinct(promoted(found, name).system.children),
        promoted(found, name).system.name == found.system.name,
        forall|other: Text| #[trigger]
            none_named(found.system.children, other) ==> none_named(
                promoted(found, name).system.children,
                other,
            ),
{
    let old_list = found.system.children;
    let new_list = promoted(found, name).system.children;
    lemma_position(old_list, name);
    match position(old_list, name) {
        Some(p) => {
            assert forall|i: int| 0 <= i < new_list.len() implies (#[trigger] new_list[i]).name
                != name by {
                let j = if i < p { i } else { i + 1 };
                assert(new_list[i] == old_list[j]);
                if j < p {
                    assert(old_list[j].name != old_list[p].name);
                } else {
                    assert(old_list[p].name != old_list[j].name);
                }
            }
            assert forall|a: int, b: int| 0 <= a < b < new_list.len() implies (
            #[trigger] new_list[a]).name != (#[trigger] new_list[b]).name by {
                let a2 = if a < p { a } else { a + 1 };
                let b2 = if b < p { b } else { b + 1 };
                assert(old_list[a2].name != old_list[b2].name);
            }
            assert forall|other: Text| #[trigger] none_named(old_list, other) implies none_named(
                new_list,
                other,
            ) by {
                assert forall|i: int| 0 <= i < new_list.len() implies (
                #[trigger] new_list[i]).name != other by {
                    let j = if i < p { i } else { i + 1 };
                    assert(new_list[i] == old_list[j]);
                }
            }
        },
        None => {},
    }
}

/// When all partitions have been taken to the root that are to be, none of them is left behind.
proof fn lemma_all_taken_away(world: World, k: int, m: int, found: Found, io: Io)
    requires
        0 <= k <= 5,
        0 <= m < 5,
        found.system.name == "system".spec_bytes(),
        distinct(found.system.children),
        stands_alone(world, m) && m < k ==> none_named(
            found.system.children,
            builtin_partitions()[m].0,
        ),
        truthful(world, io, promote_from(k, found, io)),
    ensures
        promote_from(k, found, io).out matches Outcome::Done(Some(tree)) ==> (stands_alone(world, m)
            ==> none_named(system_of(tree).children, builtin_partitions()[m].0)),
    decreases 5 - k,
{
    if k >= 5 {
        lemma_system_of(found);
    } else {
        let next = lemma_promote_now(world, k, found, io);
        lemma_taken_away(found, builtin_partitions()[k].0);
        if !(promote_from(k, found, io).out is Waiting) {
            lemma_all_taken_away(world, k + 1, m, promoted_in(world, k, found), next);
        }
    }
}

/// What was taken to the root is not left below the system partition: where the device has a
/// built-in partition on its own, the tree has none of that name there.
pub proof fn own_partitions_leave_the_system(world: World, rules: RulesView, name: Text, io: Io)
    requires
        built_in(name),
        own_partition(world, name),
        truthful(world, io, scanned(rules, io)),
    ensures
        scanned(rules, io).out matches Outcome::Done(Some(tree)) ==> none_named(
            system_of(tree).children,
            name,
        ),
{
    let m = lemma_built_in(world, name);
    collected_tree_is_well_formed(rules, io);
    let end = lemma_scanned(world, name, rules, io);
    match scanned(rules, io).out {
        Outcome::Done(Some(_)) => {
            lemma_all_taken_away(world, 0, m, end.0, end.1);
        },
        _ => {},
    }
}

} // verus!
