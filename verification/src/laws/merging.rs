//! What two modules have for the same partition comes together.

use vstd::prelude::*;

use crate::laws::builtin::none_named;
use crate::laws::collection::merging_keeps_the_first;
use crate::node::{
    absorbed, distinct, lemma_position, merged, or_insert, position, replaced, NodeView,
};
use crate::scan::{promoted, Found};

verus! {

/// All of some nodes come in whose names are not there yet, and none whose names are.
pub proof fn merging_takes_what_is_missing(nodes: Seq<NodeView>, more: Seq<NodeView>)
    requires
        distinct(more),
    ensures
        forall|j: int|
            0 <= j < more.len() && none_named(nodes, (#[trigger] more[j]).name) ==> merged(
                nodes,
                more,
            ).contains(more[j]),
        forall|i: int|
            nodes.len() <= i < merged(nodes, more).len() ==> none_named(
                nodes,
                (#[trigger] merged(nodes, more)[i]).name,
            ),
{
    let all = merged(nodes, more);
    merging_keeps_the_first(nodes, more);
    lemma_merged_are_new(nodes, more);
    assert forall|j: int|
        0 <= j < more.len() && none_named(nodes, (#[trigger] more[j]).name) implies all.contains(
        more[j],
    ) by {
        let name = more[j].name;
        lemma_position(all, name);
        let i = position(all, name)->0;
        if i < nodes.len() {
            assert(all[i] == nodes[i]);
        } else {
            assert(more.contains(all[i]));
            let h = choose|h: int| 0 <= h < more.len() && more[h] == all[i];
            if h < j {
                assert(more[h].name != more[j].name);
            }
            if j < h {
                assert(more[j].name != more[h].name);
            }
            assert(all[i] == more[j]);
        }
    }
}

/// What comes in has names that were not there.
proof fn lemma_merged_are_new(nodes: Seq<NodeView>, more: Seq<NodeView>)
    ensures
        forall|i: int|
            nodes.len() <= i < merged(nodes, more).len() ==> none_named(
                nodes,
                (#[trigger] merged(nodes, more)[i]).name,
            ),
    decreases more.len(),
{
    if more.len() > 0 {
        let first = or_insert(nodes, more[0]);
        let rest = more.drop_first();
        let all = merged(nodes, more);
        lemma_position(nodes, more[0].name);
        lemma_merged_are_new(first, rest);
        merging_keeps_the_first(first, rest);
        assert forall|i: int| nodes.len() <= i < all.len() implies none_named(
            nodes,
            (#[trigger] all[i]).name,
        ) by {
            if i < first.len() {
                assert(all[i] == first[i]);
            } else {
                assert(none_named(first, all[i].name));
                assert forall|h: int| 0 <= h < nodes.len() implies (#[trigger] nodes[h]).name
                    != all[i].name by {
                    assert(first[h] == nodes[h]);
                }
            }
        }
    }
}

/// A node of a new name is put behind the others. Where there is one of its name, that one keeps
/// all that it is and all its children, and takes those children over whose names it lacks. All
/// other nodes stay as they are.
pub proof fn absorbing_adds_what_is_missing(nodes: Seq<NodeView>, node: NodeView, p: int)
    requires
        distinct(nodes),
        distinct(node.children),
    ensures
        none_named(nodes, node.name) ==> absorbed(nodes, node) == nodes.push(node),
        0 <= p < nodes.len() && nodes[p].name == node.name ==> {
            let all = absorbed(nodes, node);
            &&& all.len() == nodes.len()
            &&& forall|i: int| 0 <= i < nodes.len() && i != p ==> #[trigger] all[i] == nodes[i]
            &&& all[p] == (NodeView { children: all[p].children, ..nodes[p] })
            &&& all[p].children.len() >= nodes[p].children.len()
            &&& all[p].children.take(nodes[p].children.len() as int) == nodes[p].children
            &&& forall|j: int|
                0 <= j < node.children.len() && none_named(
                    nodes[p].children,
                    (#[trigger] node.children[j]).name,
                ) ==> all[p].children.contains(node.children[j])
            &&& forall|i: int|
                nodes[p].children.len() <= i < all[p].children.len() ==> node.children.contains(
                    #[trigger] all[p].children[i],
                ) && none_named(nodes[p].children, all[p].children[i].name)
        },
{
    lemma_position(nodes, node.name);
    if 0 <= p < nodes.len() && nodes[p].name == node.name {
        let k = position(nodes, node.name)->0;
        if k < p {
            assert(nodes[k].name != nodes[p].name);
        }
        let all = absorbed(nodes, node);
        merging_keeps_the_first(nodes[p].children, node.children);
        merging_takes_what_is_missing(nodes[p].children, node.children);
        assert(all[p].children.take(nodes[p].children.len() as int) =~= nodes[p].children);
    }
}

/// Putting a node in place of the one of its name changes no other, and a node of a new name is put
/// behind the others.
pub proof fn replacing_changes_one(nodes: Seq<NodeView>, node: NodeView, p: int)
    requires
        distinct(nodes),
    ensures
        none_named(nodes, node.name) ==> replaced(nodes, node) == nodes.push(node),
        0 <= p < nodes.len() && nodes[p].name == node.name ==> {
            let all = replaced(nodes, node);
            &&& all.len() == nodes.len()
            &&& all[p] == node
            &&& forall|i: int| 0 <= i < nodes.len() && i != p ==> #[trigger] all[i] == nodes[i]
        },
{
    lemma_position(nodes, node.name);
    if 0 <= p < nodes.len() && nodes[p].name == node.name {
        let k = position(nodes, node.name)->0;
        if k < p {
            assert(nodes[k].name != nodes[p].name);
        }
    }
}

/// When a partition is taken from below the system partition to the root, what stands there for it
/// already stays, and takes over only what it lacks; without anything there it comes as it is. It
/// is gone from below the system partition, and nothing else is changed.
pub proof fn taking_to_the_root_adds_what_is_missing(found: Found, c: int, p: int)
    requires
        distinct(found.root.children),
        distinct(found.system.children),
        0 <= c < found.system.children.len(),
        distinct(found.system.children[c].children),
    ensures
        ({
            let child = found.system.children[c];
            let nodes = found.root.children;
            let taken = promoted(found, child.name);
            let all = taken.root.children;
            &&& taken.any == found.any
            &&& taken.root == (NodeView { children: all, ..found.root })
            &&& taken.system == (NodeView {
                children: found.system.children.remove(c),
                ..found.system
            })
            &&& none_named(nodes, child.name) ==> all == nodes.push(child)
            &&& 0 <= p < nodes.len() && nodes[p].name == child.name ==> {
                &&& all.len() == nodes.len()
                &&& forall|i: int| 0 <= i < nodes.len() && i != p ==> #[trigger] all[i] == nodes[i]
                &&& all[p] == (NodeView { children: all[p].children, ..nodes[p] })
                &&& all[p].children.len() >= nodes[p].children.len()
                &&& all[p].children.take(nodes[p].children.len() as int) == nodes[p].children
                &&& forall|j: int|
                    0 <= j < child.children.len() && none_named(
                        nodes[p].children,
                        (#[trigger] child.children[j]).name,
                    ) ==> all[p].children.contains(child.children[j])
            }
        }),
{
    let child = found.system.children[c];
    let below = found.system.children;
    lemma_position(below, child.name);
    let k = position(below, child.name)->0;
    if k < c {
        assert(below[k].name != below[c].name);
    }
    absorbing_adds_what_is_missing(found.root.children, child, p);
}

} // verus!
