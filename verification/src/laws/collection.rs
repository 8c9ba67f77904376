//! What the files of all modules make together.

use vstd::prelude::*;
#[allow(unused_imports)]
use vstd::string::StringSliceAdditionalSpecFns;
use vstd::string::is_ascii_spec_bytes;
use vstd::utf8::valid_utf8;

use crate::bytes::joined;
use crate::collect::collected;
use crate::laws::conversation::lemma_replies_stay;
use crate::laws::reading::{
    collected_only_reads, queries, supported_only_reads, takes_part_only_reads,
};
use crate::laws::tree::{
    any_mountable, collected_grows, counted, extends, from_below, grown, lemma_extends_itself,
    lemma_plain_ask, lemma_plain_listing, lemma_within_joined, mountable, owned_children,
    plain_entry, plain_replies, plain_reply, relative, sound, unskipped,
};
use crate::node::{
    absorbed, distinct, lemma_position, merged, or_insert, position, root_node, NodeFileType,
    NodeView,
};
use crate::protocol::{
    ask, done, flag_of, listing_of, Entry, FileKind, Io, Outcome, ReplyView, Request, Run, Text,
};
use crate::rules::{device_dir, supported, takes_part, RulesView};
use crate::scan::{
    builtin_partitions, may_be_other_partition, nothing_found, promote_dir, promote_from,
    promote_link, promoted, scan_checked, scan_collected, scan_dirs, scan_from, scan_listed,
    scan_looked_at, scan_partition, scan_supported, scanned, tree_of, with_partition, Dirs, Found,
    Scan,
};

verus! {

/// Where the nodes of two modules are merged, those of the first stay, in their places, and of
/// the second come those whose names the first does not have.
pub proof fn merging_keeps_the_first(nodes: Seq<NodeView>, more: Seq<NodeView>)
    ensures
        nodes.len() <= merged(nodes, more).len(),
        forall|i: int|
            0 <= i < nodes.len() ==> #[trigger] merged(nodes, more)[i] == nodes[i],
        forall|i: int|
            nodes.len() <= i < merged(nodes, more).len() ==> more.contains(
                #[trigger] merged(nodes, more)[i],
            ),
        forall|j: int|
            0 <= j < more.len() ==> position(
                merged(nodes, more),
                (#[trigger] more[j]).name,
            ) is Some,
        distinct(nodes) ==> distinct(merged(nodes, more)),
    decreases more.len(),
{
    if more.len() > 0 {
        let first = or_insert(nodes, more[0]);
        let rest = more.drop_first();
        let all = merged(nodes, more);
        lemma_position(nodes, more[0].name);
        merging_keeps_the_first(first, rest);
        assert(nodes.len() <= first.len());
        assert forall|i: int| 0 <= i < nodes.len() implies #[trigger] all[i] == nodes[i] by {
            assert(all[i] == first[i]);
        }
        assert forall|i: int| nodes.len() <= i < all.len() implies more.contains(
            #[trigger] all[i],
        ) by {
            if i < first.len() {
                assert(all[i] == first[i]);
                assert(all[i] == more[0]);
            } else {
                assert(rest.contains(all[i]));
                let j = choose|j: int| 0 <= j < rest.len() && rest[j] == all[i];
                assert(more[j + 1] == all[i]);
            }
        }
        assert forall|j: int| 0 <= j < more.len() implies position(
            all,
            (#[trigger] more[j]).name,
        ) is Some by {
            lemma_position(all, more[j].name);
            if j == 0 {
                match position(nodes, more[0].name) {
                    Some(k) => {
                        assert(all[k] == first[k]);
                    },
                    None => {
                        assert(all[nodes.len() as int] == first[nodes.len() as int]);
                    },
                }
            } else {
                assert(rest[j - 1] == more[j]);
            }
        }
        if distinct(nodes) {
            assert forall|i: int, j: int| 0 <= i < j < first.len() implies (
            #[trigger] first[i]).name != (#[trigger] first[j]).name by {
                assert(j < nodes.len() ==> nodes[i].name != nodes[j].name);
                assert(j >= nodes.len() ==> nodes[i].name != more[0].name);
            }
        }
    }
}

/// A top-level node that is fit to be mounted: its tree is sound, all its children come from
/// modules, and nothing is marked to be left out.
pub open spec fn fit(node: NodeView) -> bool {
    sound(node) && owned_children(node) && unskipped(node)
}

/// A node that takes over children that it lacks stays fit.
proof fn lemma_merged_fit(node: NodeView, other: NodeView)
    requires
        fit(node),
        fit(other),
        node.file_type == NodeFileType::Directory,
    ensures
        ({
            let new_node = NodeView { children: merged(node.children, other.children), ..node };
            &&& extends(node, new_node)
            &&& fit(new_node)
            &&& mountable(node) ==> mountable(new_node)
            &&& forall|base: Text|
                #![trigger from_below(base, new_node)]
                from_below(base, node) && from_below(base, other) ==> from_below(base, new_node)
        }),
{
    let children = merged(node.children, other.children);
    let new_node = NodeView { children, ..node };
    merging_keeps_the_first(node.children, other.children);
    assert forall|i: int| 0 <= i < node.children.len() implies extends(
        #[trigger] node.children[i],
        children[i],
    ) by {
        lemma_extends_itself(node.children[i]);
    }
    assert forall|i: int| 0 <= i < children.len() implies {
        &&& sound(#[trigger] children[i])
        &&& children[i].origin is Some
        &&& unskipped(children[i])
    } by {
        if i < node.children.len() {
            assert(children[i] == node.children[i]);
        } else {
            let j = choose|j: int|
                0 <= j < other.children.len() && other.children[j] == children[i];
            assert(sound(other.children[j]));
        }
    }
    if mountable(node) && node.file_type == NodeFileType::Directory && !node.replace {
        let i = choose|i: int|
            0 <= i < node.children.len() && mountable(#[trigger] node.children[i]);
        assert(mountable(children[i]));
        assert(any_mountable(children));
    }
    assert forall|base: Text| #![trigger from_below(base, new_node)]
        from_below(base, node) && from_below(base, other) implies from_below(base, new_node) by {
        assert forall|i: int| 0 <= i < children.len() implies from_below(
            base,
            #[trigger] children[i],
        ) by {
            if i < node.children.len() {
                assert(children[i] == node.children[i]);
            } else {
                let j = choose|j: int|
                    0 <= j < other.children.len() && other.children[j] == children[i];
                assert(from_below(base, other.children[j]));
            }
        }
    }
}

/// Adding a node to a list of fit nodes keeps them fit and in their places.
proof fn lemma_absorbed_fit(nodes: Seq<NodeView>, node: NodeView)
    requires
        distinct(nodes),
        forall|i: int| 0 <= i < nodes.len() ==> fit(#[trigger] nodes[i]),
        fit(node),
        position(nodes, node.name) matches Some(k) ==> nodes[k].file_type
            == NodeFileType::Directory,
    ensures
        ({
            let all = absorbed(nodes, node);
            &&& distinct(all)
            &&& nodes.len() <= all.len() <= nodes.len() + 1
            &&& position(nodes, node.name) is Some <==> all.len() == nodes.len()
            &&& all.len() > nodes.len() ==> all.last() == node
            &&& forall|i: int| 0 <= i < all.len() ==> fit(#[trigger] all[i])
            &&& forall|i: int|
                0 <= i < nodes.len() ==> {
                    &&& extends(nodes[i], #[trigger] all[i])
                    &&& mountable(nodes[i]) ==> mountable(all[i])
                }
            &&& forall|base: Text, i: int|
                #![trigger from_below(base, all[i])]
                from_below(base, node) && 0 <= i < all.len() && (i < nodes.len() ==> from_below(
                    base,
                    nodes[i],
                )) ==> from_below(base, all[i])
        }),
{
    let all = absorbed(nodes, node);
    lemma_position(nodes, node.name);
    assert forall|i: int| 0 <= i < nodes.len() implies extends(nodes[i], nodes[i]) by {
        lemma_extends_itself(nodes[i]);
    }
    match position(nodes, node.name) {
        Some(k) => {
            lemma_merged_fit(nodes[k], node);
            assert forall|i: int, j: int| 0 <= i < j < all.len() implies (#[trigger] all[i]).name
                != (#[trigger] all[j]).name by {
                assert(nodes[i].name != nodes[j].name);
            }
            assert forall|i: int| 0 <= i < all.len() implies fit(#[trigger] all[i]) by {
                assert(i != k ==> fit(nodes[i]));
            }
            assert forall|i: int| 0 <= i < nodes.len() implies extends(nodes[i], #[trigger] all[i])
                && (mountable(nodes[i]) ==> mountable(all[i])) by {
                assert(i != k ==> all[i] == nodes[i]);
            }
        },
        None => {
            assert forall|i: int, j: int| 0 <= i < j < all.len() implies (#[trigger] all[i]).name
                != (#[trigger] all[j]).name by {
                assert(j < nodes.len() ==> nodes[i].name != nodes[j].name);
                assert(j >= nodes.len() ==> nodes[i].name != node.name);
            }
            assert forall|i: int| 0 <= i < all.len() implies fit(#[trigger] all[i]) by {
                assert(i < nodes.len() ==> fit(nodes[i]));
            }
        },
    }
}

/// The names that the library itself gives to partitions.
pub proof fn lemma_names()
    ensures
        "".spec_bytes().len() == 0,
        relative("system".spec_bytes()),
        forall|k: int|
            0 <= k < 5 ==> (#[trigger] builtin_partitions()[k]).0 != "system".spec_bytes(),
        forall|j: int, k: int|
            0 <= j < k < 5 ==> (#[trigger] builtin_partitions()[j]).0 != (
            #[trigger] builtin_partitions()[k]).0,
{
    reveal_strlit("");
    reveal_strlit("system");
    reveal_strlit("vendor");
    reveal_strlit("system_ext");
    reveal_strlit("product");
    reveal_strlit("odm");
    reveal_strlit("oem");
    is_ascii_spec_bytes("");
    is_ascii_spec_bytes("system");
    is_ascii_spec_bytes("vendor");
    is_ascii_spec_bytes("system_ext");
    is_ascii_spec_bytes("product");
    is_ascii_spec_bytes("odm");
    is_ascii_spec_bytes("oem");
    assert("system".spec_bytes()[0] == 115);
    assert("vendor".spec_bytes()[0] == 118);
    assert("odm".spec_bytes()[1] == 100);
    assert("oem".spec_bytes()[1] == 101);
}

/// One of the partitions whose files modules may keep below those for the system partition.
pub open spec fn is_builtin(name: Text) -> bool {
    exists|k: int| 0 <= k < 5 && (#[trigger] builtin_partitions()[k]).0 == name
}

/// A name that a node at the root may have besides that of the system partition.
pub open spec fn partition_name(rules: RulesView, name: Text) -> bool {
    name != "system".spec_bytes() && (rules.supported_partitions.contains(name) || is_builtin(name))
}

/// A tree as it is handed on to be mounted. Its root is the device's root. Below it stand the
/// system partition, which no module provides, and partitions that are supported or built in, each
/// with files of modules only. The tree is sound, nothing in it is marked to be left out, and there
/// is something to mount: in each partition that is not built in, and somewhere in the whole tree.
pub open spec fn well_collected(rules: RulesView, tree: NodeView) -> bool {
    &&& tree == NodeView { children: tree.children, ..root_node("".spec_bytes()) }
    &&& sound(tree)
    &&& unskipped(tree)
    &&& mountable(tree)
    &&& position(tree.children, "system".spec_bytes()) is Some
    &&& forall|i: int|
        0 <= i < tree.children.len() ==> {
            &&& owned_children(#[trigger] tree.children[i])
            &&& tree.children[i].name == "system".spec_bytes() || partition_name(
                rules,
                tree.children[i].name,
            )
            &&& tree.children[i].name == "system".spec_bytes() ==> tree.children[i] == NodeView {
                children: tree.children[i].children,
                ..root_node("system".spec_bytes())
            }
            &&& tree.children[i].name == "system".spec_bytes() || is_builtin(tree.children[i].name)
                || mountable(tree.children[i])
        }
}

/// What has been found can become a tree.
spec fn found_fit(rules: RulesView, found: Found) -> bool {
    &&& found.root == NodeView { children: found.root.children, ..root_node("".spec_bytes()) }
    &&& found.system == NodeView {
        children: found.system.children,
        ..root_node("system".spec_bytes())
    }
    &&& fit(found.system)
    &&& distinct(found.root.children)
    &&& forall|i: int|
        0 <= i < found.root.children.len() ==> {
            &&& fit(#[trigger] found.root.children[i])
            &&& partition_name(rules, found.root.children[i].name)
        }
}

/// There is something to mount.
spec fn anything(found: Found) -> bool {
    any_mountable(found.root.children) || any_mountable(found.system.children)
}

/// All that has been found comes from below `base`.
spec fn located(base: Text, found: Found) -> bool {
    &&& from_below(base, found.system)
    &&& forall|i: int|
        0 <= i < found.root.children.len() ==> from_below(base, #[trigger] found.root.children[i])
}

/// A directory in which there is something to mount.
spec fn filled(node: NodeView) -> bool {
    mountable(node) && node.file_type == NodeFileType::Directory
}

/// Each partition is a directory in which there is something to mount, but for those that were
/// taken from below the system partition.
spec fn settled(found: Found, k: int) -> bool {
    forall|i: int|
        0 <= i < found.root.children.len() ==> filled(#[trigger] found.root.children[i])
            || exists|j: int|
            0 <= j < k && (#[trigger] builtin_partitions()[j]).0 == found.root.children[i].name
}

/// The tree of what was found is as it should be.
proof fn lemma_tree(rules: RulesView, found: Found)
    requires
        found_fit(rules, found),
        anything(found),
        settled(found, 5),
    ensures
        well_collected(rules, tree_of(found)),
        forall|base: Text|
            #![trigger from_below(base, tree_of(found))]
            located(base, found) ==> from_below(base, tree_of(found)),
{
    let nodes = found.root.children;
    let name = "system".spec_bytes();
    let tree = tree_of(found);
    lemma_names();
    lemma_position(nodes, name);
    assert(position(nodes, name) is None);
    assert(tree.children == nodes.push(found.system));
    lemma_position(tree.children, name);
    assert(tree.children[nodes.len() as int].name == name);
    assert forall|i: int, j: int| 0 <= i < j < tree.children.len() implies (
    #[trigger] tree.children[i]).name != (#[trigger] tree.children[j]).name by {
        assert(nodes[i].name != name);
        assert(j < nodes.len() ==> nodes[i].name != nodes[j].name);
    }
    assert forall|i: int| 0 <= i < tree.children.len() implies {
        &&& sound(#[trigger] tree.children[i])
        &&& unskipped(tree.children[i])
        &&& owned_children(tree.children[i])
        &&& tree.children[i].name == name || partition_name(rules, tree.children[i].name)
        &&& tree.children[i].name == name || is_builtin(tree.children[i].name) || mountable(
            tree.children[i],
        )
    } by {
        assert(i < nodes.len() ==> fit(nodes[i]));
        if i < nodes.len() && !filled(nodes[i]) {
            let j = choose|j: int|
                0 <= j < 5 && (#[trigger] builtin_partitions()[j]).0 == nodes[i].name;
            assert(is_builtin(nodes[i].name));
        }
    }
    if any_mountable(nodes) {
        let i = choose|i: int| 0 <= i < nodes.len() && mountable(#[trigger] nodes[i]);
        assert(mountable(tree.children[i]));
    } else {
        assert(mountable(tree.children[nodes.len() as int]));
    }
    assert(any_mountable(tree.children));
    assert forall|base: Text| #![trigger from_below(base, tree)]
        located(base, found) implies from_below(base, tree) by {
        assert forall|i: int| 0 <= i < tree.children.len() implies from_below(
            base,
            #[trigger] tree.children[i],
        ) by {
            assert(i < nodes.len() ==> from_below(base, nodes[i]));
        }
    }
}

/// Taking a partition from below the system partition loses nothing.
proof fn lemma_promoted(rules: RulesView, found: Found, k: int)
    requires
        0 <= k < 5,
        found_fit(rules, found),
        anything(found),
        settled(found, k),
    ensures
        ({
            let next = promoted(found, builtin_partitions()[k].0);
            &&& found_fit(rules, next)
            &&& anything(next)
            &&& settled(next, k + 1)
            &&& forall|base: Text| #[trigger] located(base, found) ==> located(base, next)
        }),
{
    let name = builtin_partitions()[k].0;
    let next = promoted(found, name);
    let nodes = found.root.children;
    let below = found.system.children;
    lemma_names();
    lemma_position(below, name);
    assert(is_builtin(name));
    match position(below, name) {
        Some(m) => {
            let child = below[m];
            let left = below.remove(m);
            assert(sound(child) && unskipped(child) && child.origin is Some);
            assert(fit(child)) by {
                assert forall|i: int| 0 <= i < child.children.len() implies (
                #[trigger] child.children[i]).origin is Some by {
                    assert(sound(child.children[i]));
                }
            }
            lemma_position(nodes, name);
            match position(nodes, name) {
                Some(p) => {
                    assert(filled(nodes[p]));
                },
                None => {},
            }
            lemma_absorbed_fit(nodes, child);
            let all = next.root.children;
            assert(all == absorbed(nodes, child));
            assert forall|i: int| 0 <= i < left.len() implies {
                &&& sound(#[trigger] left[i])
                &&& unskipped(left[i])
                &&& left[i].origin is Some
            } by {
                let j = if i < m { i } else { i + 1 };
                assert(left[i] == below[j]);
                assert(sound(below[j]));
            }
            assert forall|i: int, j: int| 0 <= i < j < left.len() implies (
            #[trigger] left[i]).name != (#[trigger] left[j]).name by {
                let i2 = if i < m { i } else { i + 1 };
                let j2 = if j < m { j } else { j + 1 };
                assert(below[i2].name != below[j2].name);
            }
            assert forall|i: int| 0 <= i < all.len() implies partition_name(
                rules,
                (#[trigger] all[i]).name,
            ) by {
                if i < nodes.len() {
                    assert(extends(nodes[i], all[i]));
                } else {
                    assert(all[i] == all.last());
                }
            }
            assert forall|i: int| 0 <= i < all.len() implies filled(#[trigger] all[i])
                || exists|j: int|
                0 <= j < k + 1 && (#[trigger] builtin_partitions()[j]).0 == all[i].name by {
                if i < nodes.len() {
                    assert(extends(nodes[i], all[i]));
                    if !filled(nodes[i]) {
                        let j = choose|j: int|
                            0 <= j < k && (#[trigger] builtin_partitions()[j]).0 == nodes[i].name;
                        assert(builtin_partitions()[j].0 == all[i].name);
                    }
                } else {
                    assert(all[i] == all.last());
                    assert(builtin_partitions()[k].0 == all[i].name);
                }
            }
            assert(anything(next)) by {
                if any_mountable(nodes) {
                    let i = choose|i: int| 0 <= i < nodes.len() && mountable(#[trigger] nodes[i]);
                    assert(mountable(all[i]));
                } else {
                    let i = choose|i: int| 0 <= i < below.len() && mountable(#[trigger] below[i]);
                    if i < m {
                        assert(mountable(left[i]));
                    } else if i > m {
                        assert(left[i - 1] == below[i]);
                        assert(mountable(left[i - 1]));
                    } else {
                        match position(nodes, name) {
                            Some(p) => {
                                assert(mountable(nodes[p]));
                            },
                            None => {
                                assert(mountable(all[nodes.len() as int]));
                            },
                        }
                    }
                }
            }
            assert forall|base: Text| #[trigger] located(base, found) implies located(
                base,
                next,
            ) by {
                assert(from_below(base, child));
                assert forall|i: int| 0 <= i < all.len() implies from_below(
                    base,
                    #[trigger] all[i],
                ) by {
                    assert(i < nodes.len() ==> from_below(base, nodes[i]));
                }
                assert forall|i: int| 0 <= i < left.len() implies from_below(
                    base,
                    #[trigger] left[i],
                ) by {
                    let j = if i < m { i } else { i + 1 };
                    assert(left[i] == below[j]);
                    assert(from_below(base, below[j]));
                }
            }
        },
        None => {
            lemma_settled_on(found, k);
        },
    }
}

/// What is settled stays settled for the partitions to come.
proof fn lemma_settled_on(found: Found, k: int)
    requires
        settled(found, k),
    ensures
        settled(found, k + 1),
{
    assert forall|i: int| 0 <= i < found.root.children.len() implies filled(
        #[trigger] found.root.children[i],
    ) || exists|j: int|
        0 <= j < k + 1 && (#[trigger] builtin_partitions()[j]).0 == found.root.children[i].name by {
        if !filled(found.root.children[i]) {
            let j = choose|j: int|
                0 <= j < k && (#[trigger] builtin_partitions()[j]).0
                    == found.root.children[i].name;
            assert(builtin_partitions()[j].0 == found.root.children[i].name);
        }
    }
}

/// Taking partitions to the root makes a tree as it should be.
proof fn lemma_promote_from(rules: RulesView, k: int, found: Found, io: Io)
    requires
        0 <= k <= 5,
        found_fit(rules, found),
        anything(found),
        settled(found, k),
    ensures
        promote_from(k, found, io).out matches Outcome::Done(tree) ==> {
            &&& tree is Some
            &&& well_collected(rules, tree->0)
            &&& forall|base: Text|
                #![trigger from_below(base, tree->0)]
                located(base, found) ==> from_below(base, tree->0)
        },
    decreases 5 - k,
{
    if k < 0 || k >= 5 {
        lemma_tree(rules, found);
    } else {
        let partition = builtin_partitions()[k];
        let run = ask(io, Request::IsDir(device_dir(partition.0)));
        let next = ask(
            run.io,
            Request::IsSymlink(joined("/system".spec_bytes(), partition.0)),
        );
        lemma_promoted(rules, found, k);
        lemma_settled_on(found, k);
        lemma_promote_from(rules, k + 1, found, run.io);
        lemma_promote_from(rules, k + 1, found, next.io);
        lemma_promote_from(rules, k + 1, promoted(found, partition.0), run.io);
        lemma_promote_from(rules, k + 1, promoted(found, partition.0), next.io);
        assert forall|base: Text| #[trigger] located(base, found) implies located(
            base,
            promoted(found, partition.0),
        ) by {}
        match run.out {
            Outcome::Done(reply) => {
                let whole = promote_dir(k, found, reply, run.io);
                assert(promote_from(k, found, io) == whole);
                if flag_of(reply) && partition.1 {
                    match next.out {
                        Outcome::Done(link) => {
                            assert(whole == promote_link(k, found, link, next.io));
                        },
                        _ => {},
                    }
                }
            },
            _ => {},
        }
    }
}

/// A way through the modules on which all is as it should be. Something was found, or `has` tells
/// of it, exactly where there is something to mount.
spec fn scan_fit(scan: Scan, has: bool) -> bool {
    &&& found_fit(scan.rules, scan.found)
    &&& settled(scan.found, 0)
    &&& scan.found.any || has <==> anything(scan.found)
}

/// No entry of a list has an absolute name.
spec fn plain_entries(entries: Seq<Entry<Text>>) -> bool {
    forall|j: int| 0 <= j < entries.len() ==> plain_entry(#[trigger] entries[j])
}

/// A way through the modules on which nothing has an absolute name.
spec fn scan_plain(scan: Scan, io: Io) -> bool {
    &&& located(scan.rules.module_dir, scan.found)
    &&& plain_entries(scan.modules)
    &&& plain_replies(io)
}

/// The tree that a way through the modules leads to is as it should be.
spec fn ends_well(scan: Scan, plain: bool, run: Run<Option<NodeView>>) -> bool {
    run.out matches Outcome::Done(Some(tree)) ==> {
        &&& well_collected(scan.rules, tree)
        &&& plain ==> from_below(scan.rules.module_dir, tree)
    }
}

/// Where the modules that are still to come lead.
proof fn lemma_scan_from(scan: Scan, io: Io)
    requires
        scan_fit(scan, false),
    ensures
        ends_well(scan, scan_plain(scan, io), scan_from(scan, io)),
    decreases scan.left(), 10nat, 0nat,
{
    reveal(scan_from);
    reveal(scan_dirs);
    if scan.next < 0 || scan.next >= scan.modules.len() {
        if scan.found.any {
            lemma_promote_from(scan.rules, 0, scan.found, io);
        }
    } else {
        match scan.modules[scan.next].kind {
            Ok(FileKind::Dir) => {
                if valid_utf8(scan.modules[scan.next].name) {
                    let run = takes_part(scan.rules, scan.path(), io);
                    takes_part_only_reads(scan.rules, scan.path(), io);
                    if plain_replies(io) {
                        lemma_replies_stay(io, run, queries(), |r: ReplyView| plain_reply(r));
                    }
                    match run.out {
                        Outcome::Done(true) => {
                            lemma_scan_checked(scan, run.io);
                        },
                        Outcome::Done(false) => {
                            lemma_scan_from(scan.passed(), run.io);
                        },
                        _ => {},
                    }
                    assert(scan_from(scan, io) == scan_checked(scan, run));
                }
            },
            Ok(_) => {
                lemma_scan_from(scan.passed(), io);
            },
            Err(_) => {},
        }
    }
}

/// Where a module that takes part leads.
proof fn lemma_scan_checked(scan: Scan, io: Io)
    requires
        0 <= scan.next < scan.modules.len(),
        scan_fit(scan, false),
    ensures
        ends_well(scan, scan_plain(scan, io), scan_checked(scan, done(io, true))),
    decreases scan.left(), 9nat, 0nat,
{
    reveal(scan_from);
    reveal(scan_dirs);
    let base = scan.rules.module_dir;
    let name = "system".spec_bytes();
    let dir = joined(scan.path(), name);
    let request = Request::IsDir(dir);
    let run = ask(io, request);
    let plain = scan_plain(scan, io);
    if plain {
        lemma_names();
        assert(plain_entry(scan.modules[scan.next]));
        assert(base.take(base.len() as int) =~= base);
        lemma_within_joined(base, base, scan.modules[scan.next].name);
        lemma_within_joined(base, scan.path(), name);
        lemma_plain_ask(io, request);
    }
    match run.out {
        Outcome::Done(reply) => {
            let filled = if flag_of(reply) {
                collected(scan.found.system, dir, run.io)
            } else {
                done(run.io, (scan.found.system, false))
            };
            if flag_of(reply) {
                collected_only_reads(scan.found.system, dir, run.io);
                collected_grows(base, scan.found.system, dir, run.io);
                if plain {
                    lemma_replies_stay(run.io, filled, queries(), |r: ReplyView| plain_reply(r));
                }
            } else {
                lemma_extends_itself(scan.found.system);
            }
            assert(scan_looked_at(scan, run) == scan_collected(scan, filled));
            match filled.out {
                Outcome::Done(f) => {
                    let list = Request::ListDir(scan.path());
                    let listed = ask(filled.io, list);
                    let next = scan.with_system(f.0);
                    if plain {
                        lemma_plain_ask(filled.io, list);
                    }
                    assert(scan_collected(scan, filled) == scan_listed(next, f.1, listed));
                    match listed.out {
                        Outcome::Done(reply) => match listing_of(reply) {
                            Ok(dirs) => {
                                if plain {
                                    lemma_plain_listing(reply);
                                }
                                assert(grown(base, dir, run.io, scan.found.system, f.0));
                                assert(found_fit(next.rules, next.found));
                                lemma_scan_dirs(
                                    next,
                                    Dirs { dirs, next: 0, has_file: f.1 },
                                    listed.io,
                                );
                            },
                            Err(_) => {},
                        },
                        _ => {},
                    }
                },
                _ => {},
            }
        },
        _ => {},
    }
}

/// Where the directories of a module that are still to come lead.
proof fn lemma_scan_dirs(scan: Scan, dirs: Dirs, io: Io)
    requires
        0 <= scan.next < scan.modules.len(),
        scan_fit(scan, dirs.has_file),
    ensures
        ends_well(
            scan,
            scan_plain(scan, io) && plain_entries(dirs.dirs),
            scan_dirs(scan, dirs, io),
        ),
    decreases scan.left(), 5nat, 3 * dirs.left(),
{
    reveal(scan_from);
    reveal(scan_dirs);
    let base = scan.rules.module_dir;
    let plain = scan_plain(scan, io) && plain_entries(dirs.dirs);
    if dirs.next < 0 || dirs.next >= dirs.dirs.len() {
        lemma_scan_from(
            Scan {
                found: Found { any: scan.found.any || dirs.has_file, ..scan.found },
                ..scan.passed()
            },
            io,
        );
    } else if may_be_other_partition(dirs.dirs[dirs.next]) {
        let name = dirs.name();
        let run = supported(scan.rules, name, io);
        supported_only_reads(scan.rules, name, io);
        if plain {
            lemma_replies_stay(io, run, queries(), |r: ReplyView| plain_reply(r));
        }
        match run.out {
            Outcome::Done(true) => {
                let node = root_node(name);
                let dir = joined(scan.path(), name);
                let filled = collected(node, dir, run.io);
                collected_only_reads(node, dir, run.io);
                collected_grows(base, node, dir, run.io);
                assert(fit(node));
                assert(!any_mountable(node.children));
                if plain {
                    assert(plain_entry(scan.modules[scan.next]));
                    assert(plain_entry(dirs.dirs[dirs.next]));
                    assert(base.take(base.len() as int) =~= base);
                    lemma_within_joined(base, base, scan.modules[scan.next].name);
                    lemma_within_joined(base, scan.path(), name);
                    lemma_replies_stay(run.io, filled, queries(), |r: ReplyView| plain_reply(r));
                    assert(from_below(base, node));
                }
                assert(scan_supported(scan, dirs, run) == scan_partition(scan, dirs, filled));
                match filled.out {
                    Outcome::Done(f) => {
                        let next = Scan { found: with_partition(scan.found, f.0, f.1), ..scan };
                        assert(grown(base, dir, run.io, node, f.0));
                        assert(counted(node, false, f.0, f.1));
                        lemma_with_partition(scan, f.0, f.1, dirs.has_file);
                        lemma_scan_dirs(next, dirs.passed(f.1), filled.io);
                    },
                    _ => {},
                }
            },
            Outcome::Done(false) => {
                lemma_scan_dirs(scan, dirs.passed(false), run.io);
            },
            _ => {},
        }
        assert(scan_dirs(scan, dirs, io) == scan_supported(scan, dirs, run));
    } else {
        lemma_scan_dirs(scan, dirs.passed(false), io);
    }
}

/// The files for a partition take their place among what was found.
proof fn lemma_with_partition(scan: Scan, node: NodeView, has: bool, had: bool)
    requires
        scan_fit(scan, had),
        fit(node),
        node.file_type == NodeFileType::Directory,
        !node.replace,
        node.name != "system".spec_bytes(),
        scan.rules.supported_partitions.contains(node.name),
        any_mountable(node.children) <==> has,
    ensures
        scan_fit(
            Scan { found: with_partition(scan.found, node, has), ..scan },
            had || has,
        ),
        forall|base: Text| #[trigger]
            located(base, scan.found) && from_below(base, node) ==> located(
                base,
                with_partition(scan.found, node, has),
            ),
{
    if has {
        let nodes = scan.found.root.children;
        let all = absorbed(nodes, node);
        lemma_position(nodes, node.name);
        assert(filled(node));
        assert forall|i: int| 0 <= i < nodes.len() implies filled(#[trigger] nodes[i]) by {}
        lemma_absorbed_fit(nodes, node);
        assert forall|i: int| 0 <= i < all.len() implies {
            &&& filled(#[trigger] all[i])
            &&& partition_name(scan.rules, all[i].name)
        } by {
            if i < nodes.len() {
                assert(filled(nodes[i]));
                assert(extends(nodes[i], all[i]));
            } else {
                assert(all[i] == all.last());
            }
        }
        assert(any_mountable(all)) by {
            assert(filled(all[0]));
        }
        assert forall|base: Text| #[trigger]
            located(base, scan.found) && from_below(base, node) implies located(
            base,
            with_partition(scan.found, node, has),
        ) by {
            assert forall|i: int| 0 <= i < all.len() implies from_below(
                base,
                #[trigger] all[i],
            ) by {
                assert(i < nodes.len() ==> from_below(base, nodes[i]));
            }
        }
    }
}

/// Collecting the files of all modules makes a tree that can be mounted without a gap, with the
/// system partition in it and something to mount. All its files come from below the directory of
/// the modules, as long as the host does not name entries by absolute paths.
pub proof fn collected_tree_is_well_formed(rules: RulesView, io: Io)
    ensures
        scanned(rules, io).out matches Outcome::Done(Some(tree)) ==> {
            &&& well_collected(rules, tree)
            &&& plain_replies(io) ==> from_below(rules.module_dir, tree)
        },
{
    let request = Request::ListDir(rules.module_dir);
    let run = ask(io, request);
    if plain_replies(io) {
        lemma_plain_ask(io, request);
    }
    match run.out {
        Outcome::Done(reply) => match listing_of(reply) {
            Ok(modules) => {
                let scan = Scan { rules, modules, next: 0, found: nothing_found() };
                if plain_replies(io) {
                    lemma_plain_listing(reply);
                }
                lemma_names();
                assert(scan_fit(scan, false));
                assert(from_below(rules.module_dir, scan.found.system));
                lemma_scan_from(scan, run.io);
            },
            Err(_) => {},
        },
        _ => {},
    }
}

} // verus!
