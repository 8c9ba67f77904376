//! All files in the tree come from modules that take part.

use vstd::prelude::*;

use crate::bytes::{joined, lossy_text};
use crate::laws::collection::merging_keeps_the_first;
use crate::laws::finding::{made_of_entry, made_of_nth, stays_or_stems, stems, World};
use crate::laws::sources::takes_part_in;
use crate::laws::tree::{
    lemma_plain_listing, lemma_within_joined, plain_entry, plain_reply, relative, within,
};
use crate::node::{absorbed, lemma_position, merged, position, NodeView};
use crate::protocol::{listing_of, Entry, FileKind, Request, Text};
use crate::rules::RulesView;

verus! {

/// A directory among the modules that holds a module which takes part.
pub open spec fn participates(world: World, rules: RulesView, module: Entry<Text>) -> bool {
    &&& module.kind == Ok::<FileKind, u64>(FileKind::Dir)
    &&& takes_part_in(world, rules, joined(rules.module_dir, module.name))
}

/// Where the files of a module are: its directory with a separator behind it.
pub open spec fn home(rules: RulesView, module: Entry<Text>) -> Text {
    joined(joined(rules.module_dir, module.name), Seq::empty())
}

/// A path leads into the directory of a module that takes part.
pub open spec fn of_participant(
    world: World,
    rules: RulesView,
    modules: Seq<Entry<Text>>,
    path: Text,
) -> bool {
    exists|k: int|
        0 <= k < modules.len() && participates(world, rules, #[trigger] modules[k]) && within(
            home(rules, modules[k]),
            path,
        )
}

/// No name of a tree leads away, and all its files come from modules that take part.
pub open spec fn provided(
    world: World,
    rules: RulesView,
    modules: Seq<Entry<Text>>,
    node: NodeView,
) -> bool
    decreases node,
{
    &&& relative(node.name)
    &&& node.origin matches Some(p) ==> of_participant(world, rules, modules, p)
    &&& forall|i: int|
        0 <= i < node.children.len() ==> provided(
            world,
            rules,
            modules,
            #[trigger] node.children[i],
        )
}

/// All of several trees have their files from modules that take part.
pub open spec fn all_provided(
    world: World,
    rules: RulesView,
    modules: Seq<Entry<Text>>,
    nodes: Seq<NodeView>,
) -> bool {
    forall|i: int|
        0 <= i < nodes.len() ==> provided(world, rules, modules, #[trigger] nodes[i])
}

/// The host never names an entry by an absolute path.
pub open spec fn plain_world(world: World) -> bool {
    forall|request: Request<Text>| plain_reply(#[trigger] world(request))
}

/// What is below the directory of a module leads into it.
pub proof fn lemma_at_home(rules: RulesView, module: Entry<Text>, name: Text)
    requires
        relative(name),
    ensures
        within(home(rules, module), joined(joined(rules.module_dir, module.name), name)),
{
    let path = joined(rules.module_dir, module.name);
    let base = home(rules, module);
    assert(joined(path, name).take(base.len() as int) =~= base);
}

/// What was added to a node from the directory of a module that takes part comes from there.
pub proof fn lemma_stems_provided(
    world: World,
    rules: RulesView,
    modules: Seq<Entry<Text>>,
    k: int,
    dir: Text,
    old_node: NodeView,
    new_node: NodeView,
)
    requires
        plain_world(world),
        0 <= k < modules.len(),
        participates(world, rules, modules[k]),
        within(home(rules, modules[k]), dir),
        stems(world, dir, old_node, new_node),
        provided(world, rules, modules, old_node),
    ensures
        provided(world, rules, modules, new_node),
    decreases new_node,
{
    let base = home(rules, modules[k]);
    assert forall|i: int| 0 <= i < new_node.children.len() implies provided(
        world,
        rules,
        modules,
        #[trigger] new_node.children[i],
    ) by {
        let child = new_node.children[i];
        let before = if i < old_node.children.len() {
            assert(stays_or_stems(world, dir, old_node.children[i], child));
            assert(provided(world, rules, modules, old_node.children[i]));
            old_node.children[i]
        } else {
            assert(made_of_entry(world, dir, child));
            let j = choose|j: int| #[trigger] made_of_nth(world, dir, j) is Some && stays_or_stems(
                world,
                dir,
                made_of_nth(world, dir, j)->0,
                child,
            );
            let made = made_of_nth(world, dir, j)->0;
            let reply = world(Request::ListDir(dir));
            let entries = listing_of(reply)->Ok_0;
            assert(plain_reply(reply));
            lemma_plain_listing(reply);
            assert(plain_entry(entries[j]));
            lemma_within_joined(base, dir, entries[j].name);
            assert(made.name == lossy_text(entries[j].name));
            assert(made.origin == Some(joined(dir, entries[j].name)));
            assert(participates(world, rules, modules[k]));
            assert(provided(world, rules, modules, made));
            made
        };
        if child != before {
            lemma_within_joined(base, dir, before.name);
            lemma_stems_provided(
                world,
                rules,
                modules,
                k,
                joined(dir, before.name),
                before,
                child,
            );
        }
    }
}

/// Adding the files for a partition brings no others in.
pub proof fn lemma_absorbed_provided(
    world: World,
    rules: RulesView,
    modules: Seq<Entry<Text>>,
    nodes: Seq<NodeView>,
    node: NodeView,
)
    requires
        all_provided(world, rules, modules, nodes),
        provided(world, rules, modules, node),
    ensures
        all_provided(world, rules, modules, absorbed(nodes, node)),
{
    let all = absorbed(nodes, node);
    lemma_position(nodes, node.name);
    match position(nodes, node.name) {
        Some(k) => {
            let children = merged(nodes[k].children, node.children);
            merging_keeps_the_first(nodes[k].children, node.children);
            assert(provided(world, rules, modules, nodes[k]));
            assert forall|i: int| 0 <= i < children.len() implies provided(
                world,
                rules,
                modules,
                #[trigger] children[i],
            ) by {
                if i < nodes[k].children.len() {
                    assert(children[i] == nodes[k].children[i]);
                } else {
                    assert(node.children.contains(children[i]));
                    let j = choose|j: int|
                        0 <= j < node.children.len() && node.children[j] == children[i];
                    assert(provided(world, rules, modules, node.children[j]));
                }
            }
            assert(provided(world, rules, modules, all[k]));
            assert forall|i: int| 0 <= i < all.len() implies provided(
                world,
                rules,
                modules,
                #[trigger] all[i],
            ) by {
                if i != k {
                    assert(all[i] == nodes[i]);
                }
            }
        },
        None => {
            assert forall|i: int| 0 <= i < all.len() implies provided(
                world,
                rules,
                modules,
                #[trigger] all[i],
            ) by {
                if i < nodes.len() {
                    assert(all[i] == nodes[i]);
                }
            }
        },
    }
}

} // verus!
