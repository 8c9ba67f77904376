//! When there is a tree.

use vstd::prelude::*;
#[allow(unused_imports)]
use vstd::string::StringSliceAdditionalSpecFns;
use vstd::utf8::valid_utf8;

use crate::bytes::{joined, lossy_text};
use crate::collect::collected;
use crate::laws::finding::{
    collecting_finds_what_is_there, lemma_truthful_ask, made_in, made_of_entry, made_of_nth,
    stays_or_stems, stems, truthful, World,
};
use crate::laws::found::{
    clear_listing, clear_names, holds_file, holds_something, lemma_holding_is_told,
};
use crate::laws::provenance::participates;
use crate::laws::reading::{module_queries, scan_from_only_reads};
use crate::laws::repeating::{
    child_told, collected_directories_are_settled, entry_settled, entry_told, settled, told,
};
use crate::laws::scanning::{
    lemma_checked_now, lemma_dir_now, lemma_module_now, lemma_other_dir_now, lemma_promote_now,
    promoted_in, system_filled,
};
use crate::laws::sources::supported_in;
use crate::laws::tree::{any_mountable, collected_grows, mountable};
use crate::node::{lemma_position, position, root_node, NodeFileType, NodeView};
use crate::protocol::{
    ask, done, flag_of, listing_of, Entry, FileKind, Io, Outcome, Request, Run, Text,
};
use crate::rules::{supported, takes_part, RulesView};
use crate::scan::{
    finished, may_be_other_partition, nothing_found, promote_from, scan_checked, scan_dirs,
    scan_from, scanned, with_partition, Dirs, Found, Scan,
};

verus! {

/// The directories of a name in several directories.
pub open spec fn below(dirs: Seq<Text>, name: Text) -> Seq<Text> {
    Seq::new(dirs.len(), |d: int| joined(dirs[d], name))
}

/// A node has its name, its type and whether it replaces from the entry at `j` of the directory
/// at `d`.
pub open spec fn is_made(world: World, dirs: Seq<Text>, d: int, j: int, node: NodeView) -> bool {
    &&& 0 <= d < dirs.len()
    &&& made_of_nth(world, dirs[d], j) matches Some(made) && made.name == node.name
        && made.file_type == node.file_type && made.replace == node.replace
}

/// A node is made of an entry of one of several directories.
pub open spec fn came_from(world: World, dirs: Seq<Text>, node: NodeView) -> bool {
    exists|d: int, j: int| #[trigger] is_made(world, dirs, d, j, node)
}

/// All that is below a node comes from several directories.
pub open spec fn built_of(world: World, dirs: Seq<Text>, node: NodeView) -> bool
    decreases node,
{
    forall|i: int|
        0 <= i < node.children.len() ==> {
            &&& came_from(world, dirs, #[trigger] node.children[i])
            &&& built_of(world, below(dirs, node.children[i].name), node.children[i])
        }
}

/// What comes from several directories comes from those and one more.
pub proof fn lemma_built_further(world: World, dirs: Seq<Text>, dir: Text, node: NodeView)
    requires
        built_of(world, dirs, node),
    ensures
        built_of(world, dirs.push(dir), node),
    decreases node,
{
    let more = dirs.push(dir);
    assert forall|i: int| 0 <= i < node.children.len() implies {
        &&& came_from(world, more, #[trigger] node.children[i])
        &&& built_of(world, below(more, node.children[i].name), node.children[i])
    } by {
        let child = node.children[i];
        assert(came_from(world, dirs, child));
        let (d, j) = choose|d: int, j: int| #[trigger] is_made(world, dirs, d, j, child);
        assert(is_made(world, more, d, j, child));
        lemma_built_further(world, below(dirs, child.name), joined(dir, child.name), child);
        assert(below(more, child.name) =~= below(dirs, child.name).push(
            joined(dir, child.name),
        ));
    }
}

/// What was added from a directory comes from it.
pub proof fn lemma_built_stems(
    world: World,
    dirs: Seq<Text>,
    dir: Text,
    old_node: NodeView,
    new_node: NodeView,
)
    requires
        built_of(world, dirs.push(dir), old_node),
        stems(world, dir, old_node, new_node),
    ensures
        built_of(world, dirs.push(dir), new_node),
    decreases new_node,
{
    let more = dirs.push(dir);
    assert forall|i: int| 0 <= i < new_node.children.len() implies {
        &&& came_from(world, more, #[trigger] new_node.children[i])
        &&& built_of(world, below(more, new_node.children[i].name), new_node.children[i])
    } by {
        let child = new_node.children[i];
        let before = if i < old_node.children.len() {
            assert(stays_or_stems(world, dir, old_node.children[i], child));
            assert(came_from(world, more, old_node.children[i]));
            old_node.children[i]
        } else {
            assert(made_of_entry(world, dir, child));
            let j = choose|j: int| #[trigger] made_of_nth(world, dir, j) is Some && stays_or_stems(
                world,
                dir,
                made_of_nth(world, dir, j)->0,
                child,
            );
            let made = made_of_nth(world, dir, j)->0;
            assert(more[dirs.len() as int] == dir);
            assert(is_made(world, more, dirs.len() as int, j, made));
            assert(built_of(world, below(more, made.name), made));
            made
        };
        let (d, j) = choose|d: int, j: int| #[trigger] is_made(world, more, d, j, before);
        assert(is_made(world, more, d, j, child));
        assert(below(more, before.name) =~= below(dirs, before.name).push(
            joined(dir, before.name),
        ));
        if child != before {
            lemma_built_stems(
                world,
                below(dirs, before.name),
                joined(dir, before.name),
                before,
                child,
            );
        }
    }
}

/// The directory `dir` has an ordinary directory of that name, one that does not replace the
/// device's.
pub open spec fn has_plain_dir(world: World, dir: Text, name: Text) -> bool {
    exists|j: int| #[trigger]
        made_of_nth(world, dir, j) matches Some(made) && made.name == name && made.file_type
            == NodeFileType::Directory && !made.replace
}

/// Where the directory `first` has an ordinary directory, no deeper than `depth` levels down, the
/// directory `second` has a file or a directory that replaces the device's.
pub open spec fn clashes(world: World, first: Text, second: Text, depth: nat) -> bool
    decreases depth,
{
    depth > 0 && exists|j: int|
        made_of_nth(world, second, j) is Some && {
            let made = (#[trigger] made_of_nth(world, second, j))->0;
            if made.file_type != NodeFileType::Directory || made.replace {
                has_plain_dir(world, first, made.name)
            } else {
                clashes(
                    world,
                    joined(first, made.name),
                    joined(second, made.name),
                    (depth - 1) as nat,
                )
            }
        }
}

/// None of several directories has an ordinary directory where the directory `second` has a file or
/// a directory that replaces the device's.
pub open spec fn no_clash(world: World, dirs: Seq<Text>, second: Text, depth: nat) -> bool {
    forall|d: int| 0 <= d < dirs.len() ==> !clashes(world, #[trigger] dirs[d], second, depth)
}

/// A directory that holds something to mount is told to when it is added to what comes from others
/// that do not clash with it.
pub proof fn lemma_adding_is_told(
    world: World,
    dirs: Seq<Text>,
    dir: Text,
    old_node: NodeView,
    node: NodeView,
    depth: nat,
)
    requires
        clear_names(world),
        built_of(world, dirs, old_node),
        no_clash(world, dirs, dir, depth),
        stems(world, dir, old_node, node),
        settled(world, dir, node),
        holds_file(world, dir, depth),
    ensures
        told(world, dir, node),
    decreases depth,
{
    let entries = listing_of(world(Request::ListDir(dir)))->Ok_0;
    let j = choose|j: int|
        made_of_nth(world, dir, j) is Some && {
            let made = (#[trigger] made_of_nth(world, dir, j))->0;
            ||| made.file_type != NodeFileType::Directory
            ||| made.replace
            ||| holds_file(world, joined(dir, made.name), (depth - 1) as nat)
        };
    let made = made_of_nth(world, dir, j)->0;
    let name = lossy_text(entries[j].name);
    assert(made.name == name);
    assert(entry_settled(world, dir, entries[j], node));
    lemma_position(node.children, name);
    let k = position(node.children, name)->0;
    let child = node.children[k];
    let inner = joined(dir, name);
    let plain = made.file_type == NodeFileType::Directory && !made.replace;
    if k < old_node.children.len() {
        let before = old_node.children[k];
        assert(stays_or_stems(world, dir, before, child));
        assert(came_from(world, dirs, before));
        if before.file_type == NodeFileType::Directory && !before.replace {
            let (d, i) = choose|d: int, i: int| #[trigger] is_made(world, dirs, d, i, before);
            assert(!clashes(world, dirs[d], dir, depth));
            if !plain {
                assert(made_of_nth(world, dirs[d], i) is Some);
                assert(has_plain_dir(world, dirs[d], made.name));
            }
            assert(plain);
            let deeper = below(dirs, name);
            assert forall|e: int| 0 <= e < deeper.len() implies !clashes(
                world,
                #[trigger] deeper[e],
                inner,
                (depth - 1) as nat,
            ) by {
                assert(!clashes(world, dirs[e], dir, depth));
                assert(deeper[e] == joined(dirs[e], name));
                assert(made_of_nth(world, dir, j) is Some);
            }
            lemma_stays(world, inner, before, child);
            lemma_adding_is_told(world, deeper, inner, before, child, (depth - 1) as nat);
        }
    } else {
        assert(made_of_entry(world, dir, child));
        let i = choose|i: int| #[trigger] made_of_nth(world, dir, i) is Some && stays_or_stems(
            world,
            dir,
            made_of_nth(world, dir, i)->0,
            child,
        );
        assert(lossy_text(entries[i].name) == name);
        assert(i == j) by {
            assert(clear_listing(world, dir));
            assert(entries[i] == entries[i] && entries[j] == entries[j]);
        }
        if plain {
            lemma_stays(world, inner, made, child);
            lemma_holding_is_told(world, inner, made, child, (depth - 1) as nat);
        }
    }
    assert(child_told(world, dir, child));
    assert(entry_told(world, dir, entries[j], node));
}

/// A child that is unchanged has had nothing added.
proof fn lemma_stays(world: World, inner: Text, before: NodeView, child: NodeView)
    requires
        child == before || stems(world, inner, before, child),
    ensures
        stems(world, inner, before, child),
{
    if child == before {
        assert forall|i: int| 0 <= i < child.children.len() implies stays_or_stems(
            world,
            inner,
            before.children[i],
            #[trigger] child.children[i],
        ) by {}
    }
}

/// The directory `dir` may hold something to mount no deeper than `depth` levels down. What the
/// host cannot look at may be a directory.
pub open spec fn may_hold_file(world: World, dir: Text, depth: nat) -> bool
    decreases depth,
{
    depth > 0 && (listing_of(world(Request::ListDir(dir))) matches Ok(entries) && exists|j: int|
        0 <= j < entries.len() && {
            let name = lossy_text((#[trigger] entries[j]).name);
            ||| made_in(world, name, joined(dir, entries[j].name)) matches Some(made) && (
            made.file_type != NodeFileType::Directory || made.replace)
            ||| may_hold_file(world, joined(dir, name), (depth - 1) as nat)
        })
}

/// The directory `dir` may hold something to mount, however deep.
pub open spec fn may_hold_something(world: World, dir: Text) -> bool {
    exists|depth: nat| may_hold_file(world, dir, depth)
}

/// A directory that is told to hold something may hold something, unless that was there before.
pub proof fn lemma_told_is_held(world: World, dir: Text, old_node: NodeView, node: NodeView)
    requires
        stems(world, dir, old_node, node),
        !any_mountable(old_node.children),
        told(world, dir, node),
    ensures
        may_hold_something(world, dir),
    decreases node,
{
    let entries = listing_of(world(Request::ListDir(dir)))->Ok_0;
    let j = choose|j: int|
        0 <= j < entries.len() && entry_told(world, dir, #[trigger] entries[j], node);
    let name = lossy_text(entries[j].name);
    lemma_position(node.children, name);
    let k = position(node.children, name)->0;
    let child = node.children[k];
    let inner = joined(dir, name);
    assert(child_told(world, dir, child));
    if k < old_node.children.len() {
        let before = old_node.children[k];
        assert(stays_or_stems(world, dir, before, child));
        assert(!mountable(before));
        lemma_stays(world, inner, before, child);
        lemma_told_is_held(world, inner, before, child);
        lemma_held_below(world, dir, j);
    } else {
        assert(made_of_entry(world, dir, child));
        let i = choose|i: int| #[trigger] made_of_nth(world, dir, i) is Some && stays_or_stems(
            world,
            dir,
            made_of_nth(world, dir, i)->0,
            child,
        );
        let made = made_of_nth(world, dir, i)->0;
        if made.file_type != NodeFileType::Directory || made.replace {
            assert(0 <= i < entries.len() && entries[i] == entries[i]);
            assert(may_hold_file(world, dir, 1));
        } else {
            assert(made.name == name);
            lemma_stays(world, inner, made, child);
            lemma_told_is_held(world, inner, made, child);
            lemma_held_below(world, dir, j);
        }
    }
}

/// A directory may hold what one of its entries may hold.
proof fn lemma_held_below(world: World, dir: Text, j: int)
    requires
        listing_of(world(Request::ListDir(dir))) is Ok,
        0 <= j < listing_of(world(Request::ListDir(dir)))->Ok_0.len(),
        may_hold_something(
            world,
            joined(dir, lossy_text(listing_of(world(Request::ListDir(dir)))->Ok_0[j].name)),
        ),
    ensures
        may_hold_something(world, dir),
{
    let entries = listing_of(world(Request::ListDir(dir)))->Ok_0;
    let inner = joined(dir, lossy_text(entries[j].name));
    let depth = choose|depth: nat| may_hold_file(world, inner, depth);
    assert(may_hold_file(world, dir, depth + 1));
}

/// The directory of a module for the system partition.
pub open spec fn system_dir(rules: RulesView, module: Entry<Text>) -> Text {
    joined(joined(rules.module_dir, module.name), "system".spec_bytes())
}

/// A module takes part and has a directory for the system partition.
pub open spec fn has_system(world: World, rules: RulesView, module: Entry<Text>) -> bool {
    participates(world, rules, module) && flag_of(
        world(Request::IsDir(system_dir(rules, module))),
    )
}

/// The directories for the system partition of the modules before the one at `k`.
spec fn systems(world: World, rules: RulesView, modules: Seq<Entry<Text>>, k: int) -> Seq<Text>
    decreases k,
{
    if k <= 0 {
        Seq::empty()
    } else {
        let before = systems(world, rules, modules, k - 1);
        if has_system(world, rules, modules[k - 1]) {
            before.push(system_dir(rules, modules[k - 1]))
        } else {
            before
        }
    }
}

/// Where a module before the one at `k` has an ordinary directory for the system partition, that
/// one has a file or a directory that replaces the device's.
pub open spec fn clashes_before(
    world: World,
    rules: RulesView,
    modules: Seq<Entry<Text>>,
    k: int,
) -> bool {
    exists|i: int, depth: nat|
        0 <= i < k && has_system(world, rules, modules[i]) && #[trigger] clashes(
            world,
            system_dir(rules, modules[i]),
            system_dir(rules, modules[k]),
            depth,
        )
}

/// A directory of a module is that of a supported partition other than the system partition, and
/// holds something to mount.
pub open spec fn partition_holds(
    world: World,
    rules: RulesView,
    path: Text,
    entry: Entry<Text>,
) -> bool {
    &&& may_be_other_partition(entry)
    &&& supported_in(world, rules, entry.name)
    &&& holds_something(world, joined(path, entry.name))
}

/// The module at `k` takes part and holds something to mount: for the system partition, without a
/// clash with an earlier module, or for another supported partition.
pub open spec fn module_holds(
    world: World,
    rules: RulesView,
    modules: Seq<Entry<Text>>,
    k: int,
) -> bool {
    let path = joined(rules.module_dir, modules[k].name);
    &&& participates(world, rules, modules[k])
    &&& {
        ||| has_system(world, rules, modules[k]) && holds_something(
            world,
            system_dir(rules, modules[k]),
        ) && !clashes_before(world, rules, modules, k)
        ||| listing_of(world(Request::ListDir(path))) matches Ok(dirs) && exists|j: int|
            0 <= j < dirs.len() && partition_holds(world, rules, path, #[trigger] dirs[j])
    }
}

/// The directories for the system partition that come earlier are those of earlier modules.
proof fn lemma_systems(
    world: World,
    rules: RulesView,
    modules: Seq<Entry<Text>>,
    k: int,
    d: int,
) -> (i: int)
    requires
        0 <= d < systems(world, rules, modules, k).len(),
    ensures
        0 <= i < k,
        has_system(world, rules, modules[i]),
        systems(world, rules, modules, k)[d] == system_dir(rules, modules[i]),
    decreases k,
{
    let before = systems(world, rules, modules, k - 1);
    if d < before.len() {
        lemma_systems(world, rules, modules, k - 1, d)
    } else {
        k - 1
    }
}

/// What a scan has found for the system partition comes from the modules that it has passed.
spec fn scan_built(world: World, scan: Scan) -> bool {
    built_of(
        world,
        systems(world, scan.rules, scan.modules, scan.next),
        scan.found.system,
    )
}

/// One of the modules from the one at `next` on holds something to mount.
spec fn later_holds(world: World, scan: Scan, next: int) -> bool {
    exists|k: int|
        next <= k < scan.modules.len() && #[trigger] module_holds(
            world,
            scan.rules,
            scan.modules,
            k,
        )
}

/// If a computation comes to an end, it is with a tree.
spec fn ends_with_tree(run: Run<Option<NodeView>>) -> bool {
    run.out matches Outcome::Done(tree) ==> tree is Some
}

/// Making a tree ends with one.
proof fn lemma_promote_tree(world: World, k: int, found: Found, io: Io)
    requires
        0 <= k <= 5,
        truthful(world, io, promote_from(k, found, io)),
    ensures
        ends_with_tree(promote_from(k, found, io)),
    decreases 5 - k,
{
    if k < 5 {
        let next = lemma_promote_now(world, k, found, io);
        if !(promote_from(k, found, io).out is Waiting) {
            lemma_promote_tree(world, k + 1, promoted_in(world, k, found), next);
        }
    }
}

/// Something to mount, found or still to come, makes a tree.
proof fn lemma_scan_tree(world: World, scan: Scan, io: Io)
    requires
        clear_names(world),
        0 <= scan.next,
        scan_built(world, scan),
        scan.found.any || later_holds(world, scan, scan.next),
        truthful(world, io, scan_from(scan, io)),
    ensures
        ends_with_tree(scan_from(scan, io)),
    decreases scan.left(), 10nat, 0nat,
{
    let whole = scan_from(scan, io);
    if scan.next >= scan.modules.len() {
        reveal(scan_from);
        lemma_promote_tree(world, 0, scan.found, io);
    } else {
        let module = scan.modules[scan.next];
        match module.kind {
            Ok(FileKind::Dir) => {
                if valid_utf8(module.name) {
                    lemma_module_now(world, scan, io);
                    let run = takes_part(scan.rules, scan.path(), io);
                    match run.out {
                        Outcome::Done(true) => {
                            lemma_module_tree(world, scan, run.io);
                        },
                        Outcome::Done(false) => {
                            lemma_idle_passed(world, scan);
                            lemma_scan_tree(world, scan.passed(), run.io);
                        },
                        _ => {},
                    }
                } else {
                    reveal(scan_from);
                }
            },
            Ok(_) => {
                assert(whole == scan_from(scan.passed(), io)) by {
                    reveal(scan_from);
                }
                lemma_idle_passed(world, scan);
                lemma_scan_tree(world, scan.passed(), io);
            },
            Err(_) => {
                reveal(scan_from);
            },
        }
    }
}

/// A module that does not take part changes nothing about what is to come.
proof fn lemma_idle_passed(world: World, scan: Scan)
    requires
        0 <= scan.next < scan.modules.len(),
        !participates(world, scan.rules, scan.modules[scan.next]),
        scan_built(world, scan),
        scan.found.any || later_holds(world, scan, scan.next),
    ensures
        scan_built(world, scan.passed()),
        scan.found.any || later_holds(world, scan.passed(), scan.next + 1),
{
    if !scan.found.any {
        let k = choose|k: int|
            scan.next <= k < scan.modules.len() && #[trigger] module_holds(
                world,
                scan.rules,
                scan.modules,
                k,
            );
        assert(k > scan.next);
        assert(module_holds(world, scan.rules, scan.passed().modules, k));
    }
}

/// What a module adds for the system partition, and whether it is told.
proof fn lemma_system_told(world: World, scan: Scan, has: bool, io: Io)
    requires
        clear_names(world),
        0 <= scan.next < scan.modules.len(),
        participates(world, scan.rules, scan.modules[scan.next]),
        has == has_system(world, scan.rules, scan.modules[scan.next]),
        scan_built(world, scan),
        truthful(world, io, system_filled(scan, has, io)),
    ensures
        system_filled(scan, has, io).out matches Outcome::Done((system, has_file)) ==> {
            &&& built_of(
                world,
                systems(world, scan.rules, scan.modules, scan.next + 1),
                system,
            )
            &&& has && holds_something(world, system_dir(scan.rules, scan.modules[scan.next]))
                && !clashes_before(world, scan.rules, scan.modules, scan.next) ==> has_file
        },
{
    let dir = joined(scan.path(), "system".spec_bytes());
    let before = scan.found.system;
    let dirs = systems(world, scan.rules, scan.modules, scan.next);
    if has {
        collecting_finds_what_is_there(world, before, dir, io);
        collected_directories_are_settled(world, before, dir, io);
        match collected(before, dir, io).out {
            Outcome::Done((system, has_file)) => {
                lemma_built_further(world, dirs, dir, before);
                lemma_built_stems(world, dirs, dir, before, system);
                if holds_something(world, dir) && !clashes_before(
                    world,
                    scan.rules,
                    scan.modules,
                    scan.next,
                ) {
                    let depth = choose|depth: nat| holds_file(world, dir, depth);
                    assert forall|d: int| 0 <= d < dirs.len() implies !clashes(
                        world,
                        #[trigger] dirs[d],
                        dir,
                        depth,
                    ) by {
                        let i = lemma_systems(world, scan.rules, scan.modules, scan.next, d);
                        assert(dirs[d] == system_dir(scan.rules, scan.modules[i]));
                    }
                    lemma_adding_is_told(world, dirs, dir, before, system, depth);
                }
            },
            _ => {},
        }
    }
}

/// One of the directories from the one at `next` on holds something to mount.
spec fn later_dir_holds(world: World, scan: Scan, dirs: Seq<Entry<Text>>, next: int) -> bool {
    exists|j: int|
        next <= j < dirs.len() && partition_holds(
            world,
            scan.rules,
            scan.path(),
            #[trigger] dirs[j],
        )
}

/// Something to mount makes a tree, from a module that takes part on.
proof fn lemma_module_tree(world: World, scan: Scan, io: Io)
    requires
        clear_names(world),
        0 <= scan.next < scan.modules.len(),
        participates(world, scan.rules, scan.modules[scan.next]),
        scan_built(world, scan),
        scan.found.any || later_holds(world, scan, scan.next),
        truthful(world, io, scan_checked(scan, done(io, true))),
    ensures
        ends_with_tree(scan_checked(scan, done(io, true))),
    decreases scan.left(), 9nat, 0nat,
{
    lemma_checked_now(world, scan, io);
    let request = Request::IsDir(joined(scan.path(), "system".spec_bytes()));
    let looked = ask(io, request);
    let has = flag_of(world(request));
    let filled = system_filled(scan, has, looked.io);
    let list = Request::ListDir(scan.path());
    let listed = ask(filled.io, list);
    if looked.out is Done && filled.out is Done && listed.out is Done && listing_of(
        world(list),
    ) is Ok {
        let f = filled.out->Done_0;
        let dirs = listing_of(world(list))->Ok_0;
        let next = scan.with_system(f.0);
        lemma_system_told(world, scan, has, looked.io);
        if !scan.found.any && !f.1 {
            let k = choose|k: int|
                scan.next <= k < scan.modules.len() && #[trigger] module_holds(
                    world,
                    scan.rules,
                    scan.modules,
                    k,
                );
            if k > scan.next {
                assert(module_holds(world, next.rules, next.modules, k));
                assert(later_holds(world, next, next.next + 1));
            } else {
                let j = choose|j: int|
                    0 <= j < dirs.len() && partition_holds(
                        world,
                        scan.rules,
                        scan.path(),
                        #[trigger] dirs[j],
                    );
                assert(partition_holds(world, next.rules, next.path(), dirs[j]));
                assert(later_dir_holds(world, next, dirs, 0));
            }
        }
        lemma_dirs_tree(world, next, Dirs { dirs, next: 0, has_file: f.1 }, listed.io);
    }
}

/// Something to mount makes a tree, from the directories of a module on.
proof fn lemma_dirs_tree(world: World, scan: Scan, dirs: Dirs, io: Io)
    requires
        clear_names(world),
        0 <= scan.next < scan.modules.len(),
        0 <= dirs.next <= dirs.dirs.len(),
        built_of(
            world,
            systems(world, scan.rules, scan.modules, scan.next + 1),
            scan.found.system,
        ),
        scan.found.any || dirs.has_file || later_dir_holds(world, scan, dirs.dirs, dirs.next)
            || later_holds(world, scan, scan.next + 1),
        truthful(world, io, scan_dirs(scan, dirs, io)),
    ensures
        ends_with_tree(scan_dirs(scan, dirs, io)),
    decreases scan.left(), 5nat, 3 * dirs.left(),
{
    let whole = scan_dirs(scan, dirs, io);
    let pending = !scan.found.any && !dirs.has_file && !later_holds(world, scan, scan.next + 1);
    let at = choose|j: int|
        dirs.next <= j < dirs.dirs.len() && partition_holds(
            world,
            scan.rules,
            scan.path(),
            #[trigger] dirs.dirs[j],
        );
    if dirs.next < dirs.dirs.len() && may_be_other_partition(dirs.dirs[dirs.next]) {
        lemma_dir_now(world, scan, dirs, io);
        let name = dirs.name();
        let run = supported(scan.rules, name, io);
        match run.out {
            Outcome::Done(true) => {
                let dir = joined(scan.path(), name);
                let filled = collected(root_node(name), dir, run.io);
                match filled.out {
                    Outcome::Done(f) => {
                        let next = Scan { found: with_partition(scan.found, f.0, f.1), ..scan };
                        lemma_fresh_told(world, name, dir, run.io);
                        if pending && !f.1 {
                            assert(at > dirs.next);
                            assert(partition_holds(
                                world,
                                next.rules,
                                next.path(),
                                dirs.dirs[at],
                            ));
                            assert(later_dir_holds(world, next, dirs.dirs, dirs.next + 1));
                        }
                        lemma_later_same(world, scan, next);
                        lemma_dirs_tree(world, next, dirs.passed(f.1), filled.io);
                    },
                    _ => {},
                }
            },
            Outcome::Done(false) => {
                if pending {
                    assert(at > dirs.next);
                    assert(later_dir_holds(world, scan, dirs.dirs, dirs.next + 1));
                }
                lemma_dirs_tree(world, scan, dirs.passed(false), run.io);
            },
            _ => {},
        }
    } else {
        lemma_other_dir_now(scan, dirs, io);
        if dirs.next < dirs.dirs.len() {
            if pending {
                assert(at > dirs.next);
                assert(later_dir_holds(world, scan, dirs.dirs, dirs.next + 1));
            }
            lemma_dirs_tree(world, scan, dirs.passed(false), io);
        } else {
            let found = Found { any: scan.found.any || dirs.has_file, ..scan.found };
            let next = Scan { found, ..scan.passed() };
            lemma_later_same(world, scan, next);
            lemma_scan_tree(world, next, io);
        }
    }
}

/// What is still to come does not depend on what was found.
proof fn lemma_later_same(world: World, scan: Scan, other: Scan)
    requires
        other.rules == scan.rules,
        other.modules == scan.modules,
    ensures
        later_holds(world, scan, scan.next + 1) == later_holds(world, other, scan.next + 1),
{
}

/// A directory of a partition that holds something to mount is told to.
proof fn lemma_fresh_told(world: World, name: Text, dir: Text, io: Io)
    requires
        clear_names(world),
        truthful(world, io, collected(root_node(name), dir, io)),
    ensures
        collected(root_node(name), dir, io).out matches Outcome::Done((_, has_file)) ==> (
        holds_something(world, dir) ==> has_file),
{
    let fresh = root_node(name);
    collecting_finds_what_is_there(world, fresh, dir, io);
    collected_directories_are_settled(world, fresh, dir, io);
    match collected(fresh, dir, io).out {
        Outcome::Done((node, _)) => {
            if holds_something(world, dir) {
                let depth = choose|depth: nat| holds_file(world, dir, depth);
                lemma_holding_is_told(world, dir, fresh, node, depth);
            }
        },
        _ => {},
    }
}

/// If a module that takes part holds something to mount, going through the modules ends with a
/// tree. For the system partition this does not count what an earlier module has an ordinary
/// directory in the place of: there the earlier module's directory stays.
pub proof fn something_to_mount_makes_a_tree(world: World, rules: RulesView, k: int, io: Io)
    requires
        clear_names(world),
        truthful(world, io, scanned(rules, io)),
        listing_of(world(Request::ListDir(rules.module_dir))) matches Ok(modules) ==> {
            &&& 0 <= k < modules.len()
            &&& module_holds(world, rules, modules, k)
        },
    ensures
        scanned(rules, io).out matches Outcome::Done(tree) ==> tree is Some,
{
    let whole = scanned(rules, io);
    let request = Request::ListDir(rules.module_dir);
    let run = ask(io, request);
    match run.out {
        Outcome::Done(reply) => match listing_of(reply) {
            Ok(modules) => {
                let scan = Scan { rules, modules, next: 0, found: nothing_found() };
                assert(whole == scan_from(scan, run.io));
                scan_from_only_reads(scan, run.io);
                lemma_truthful_ask(world, io, request, whole, module_queries());
                assert(module_holds(world, scan.rules, scan.modules, k));
                lemma_scan_tree(world, scan, run.io);
            },
            Err(_) => {},
        },
        _ => {},
    }
}

/// A module that takes part has nothing to mount: not for the system partition, and not for another
/// supported partition.
pub open spec fn module_barren(world: World, rules: RulesView, module: Entry<Text>) -> bool {
    let path = joined(rules.module_dir, module.name);
    participates(world, rules, module) ==> {
        &&& has_system(world, rules, module) ==> !may_hold_something(
            world,
            system_dir(rules, module),
        )
        &&& listing_of(world(Request::ListDir(path))) matches Ok(dirs) ==> forall|j: int|
            0 <= j < dirs.len() && may_be_other_partition(#[trigger] dirs[j]) && supported_in(
                world,
                rules,
                dirs[j].name,
            ) ==> !may_hold_something(world, joined(path, dirs[j].name))
    }
}

/// No module from the one at `i` on has anything to mount.
pub open spec fn all_barren(
    world: World,
    rules: RulesView,
    modules: Seq<Entry<Text>>,
    i: int,
) -> bool {
    forall|k: int| i <= k < modules.len() ==> module_barren(world, rules, #[trigger] modules[k])
}

/// Nothing to mount has been found.
spec fn bare(found: Found) -> bool {
    !found.any && !any_mountable(found.system.children)
}

/// If a computation comes to an end, it is without a tree.
spec fn ends_without_tree(run: Run<Option<NodeView>>) -> bool {
    run.out matches Outcome::Done(tree) ==> tree is None
}

/// Adding a directory that has nothing to mount leaves nothing to mount.
proof fn lemma_added_bare(world: World, node: NodeView, dir: Text, io: Io)
    requires
        !any_mountable(node.children),
        !may_hold_something(world, dir),
        truthful(world, io, collected(node, dir, io)),
    ensures
        collected(node, dir, io).out matches Outcome::Done((new_node, has_file)) ==> !has_file
            && !any_mountable(new_node.children),
{
    collecting_finds_what_is_there(world, node, dir, io);
    collected_directories_are_settled(world, node, dir, io);
    collected_grows(dir, node, dir, io);
    match collected(node, dir, io).out {
        Outcome::Done((new_node, has_file)) => {
            if has_file {
                lemma_told_is_held(world, dir, node, new_node);
            }
        },
        _ => {},
    }
}

/// Nothing to mount, found or still to come, makes no tree.
proof fn lemma_scan_bare(world: World, scan: Scan, io: Io)
    requires
        0 <= scan.next,
        bare(scan.found),
        all_barren(world, scan.rules, scan.modules, scan.next),
        truthful(world, io, scan_from(scan, io)),
    ensures
        ends_without_tree(scan_from(scan, io)),
    decreases scan.left(), 10nat, 0nat,
{
    let whole = scan_from(scan, io);
    if scan.next >= scan.modules.len() {
        reveal(scan_from);
        assert(whole == finished(scan.found, io));
    } else {
        let module = scan.modules[scan.next];
        match module.kind {
            Ok(FileKind::Dir) => {
                if valid_utf8(module.name) {
                    lemma_module_now(world, scan, io);
                    let run = takes_part(scan.rules, scan.path(), io);
                    match run.out {
                        Outcome::Done(true) => {
                            lemma_module_bare(world, scan, run.io);
                        },
                        Outcome::Done(false) => {
                            lemma_scan_bare(world, scan.passed(), run.io);
                        },
                        _ => {},
                    }
                } else {
                    reveal(scan_from);
                }
            },
            Ok(_) => {
                assert(whole == scan_from(scan.passed(), io)) by {
                    reveal(scan_from);
                }
                lemma_scan_bare(world, scan.passed(), io);
            },
            Err(_) => {
                reveal(scan_from);
            },
        }
    }
}

/// Nothing to mount makes no tree, from a module that takes part on.
proof fn lemma_module_bare(world: World, scan: Scan, io: Io)
    requires
        0 <= scan.next < scan.modules.len(),
        participates(world, scan.rules, scan.modules[scan.next]),
        bare(scan.found),
        all_barren(world, scan.rules, scan.modules, scan.next),
        truthful(world, io, scan_checked(scan, done(io, true))),
    ensures
        ends_without_tree(scan_checked(scan, done(io, true))),
    decreases scan.left(), 9nat, 0nat,
{
    lemma_checked_now(world, scan, io);
    let dir = joined(scan.path(), "system".spec_bytes());
    let request = Request::IsDir(dir);
    let looked = ask(io, request);
    let has = flag_of(world(request));
    let filled = system_filled(scan, has, looked.io);
    let list = Request::ListDir(scan.path());
    let listed = ask(filled.io, list);
    assert(module_barren(world, scan.rules, scan.modules[scan.next]));
    if looked.out is Done && filled.out is Done && listed.out is Done && listing_of(
        world(list),
    ) is Ok {
        let f = filled.out->Done_0;
        let dirs = listing_of(world(list))->Ok_0;
        if has {
            lemma_added_bare(world, scan.found.system, dir, looked.io);
        }
        lemma_dirs_bare(
            world,
            scan.with_system(f.0),
            Dirs { dirs, next: 0, has_file: f.1 },
            listed.io,
        );
    }
}

/// Nothing to mount makes no tree, from the directories of a module on.
proof fn lemma_dirs_bare(world: World, scan: Scan, dirs: Dirs, io: Io)
    requires
        0 <= scan.next < scan.modules.len(),
        0 <= dirs.next <= dirs.dirs.len(),
        bare(scan.found),
        !dirs.has_file,
        forall|j: int|
            dirs.next <= j < dirs.dirs.len() && may_be_other_partition(#[trigger] dirs.dirs[j])
                && supported_in(world, scan.rules, dirs.dirs[j].name) ==> !may_hold_something(
                world,
                joined(scan.path(), dirs.dirs[j].name),
            ),
        all_barren(world, scan.rules, scan.modules, scan.next + 1),
        truthful(world, io, scan_dirs(scan, dirs, io)),
    ensures
        ends_without_tree(scan_dirs(scan, dirs, io)),
    decreases scan.left(), 5nat, 3 * dirs.left(),
{
    if dirs.next < dirs.dirs.len() && may_be_other_partition(dirs.dirs[dirs.next]) {
        lemma_dir_now(world, scan, dirs, io);
        let name = dirs.name();
        let run = supported(scan.rules, name, io);
        match run.out {
            Outcome::Done(true) => {
                let dir = joined(scan.path(), name);
                let filled = collected(root_node(name), dir, run.io);
                assert(!may_hold_something(world, joined(scan.path(), dirs.dirs[dirs.next].name)));
                assert(!any_mountable(root_node(name).children));
                match filled.out {
                    Outcome::Done(f) => {
                        lemma_added_bare(world, root_node(name), dir, run.io);
                        assert(with_partition(scan.found, f.0, f.1) == scan.found);
                        lemma_dirs_bare(world, scan, dirs.passed(f.1), filled.io);
                    },
                    _ => {},
                }
            },
            Outcome::Done(false) => {
                lemma_dirs_bare(world, scan, dirs.passed(false), run.io);
            },
            _ => {},
        }
    } else {
        lemma_other_dir_now(scan, dirs, io);
        if dirs.next < dirs.dirs.len() {
            lemma_dirs_bare(world, scan, dirs.passed(false), io);
        } else {
            let found = Found { any: scan.found.any || dirs.has_file, ..scan.found };
            lemma_scan_bare(world, Scan { found, ..scan.passed() }, io);
        }
    }
}

/// If no module that takes part has anything to mount, going through the modules ends without a
/// tree.
pub proof fn nothing_to_mount_makes_no_tree(world: World, rules: RulesView, io: Io)
    requires
        truthful(world, io, scanned(rules, io)),
        listing_of(world(Request::ListDir(rules.module_dir))) matches Ok(modules) ==> all_barren(
            world,
            rules,
            modules,
            0,
        ),
    ensures
        scanned(rules, io).out matches Outcome::Done(tree) ==> tree is None,
{
    let whole = scanned(rules, io);
    let request = Request::ListDir(rules.module_dir);
    let run = ask(io, request);
    match run.out {
        Outcome::Done(reply) => match listing_of(reply) {
            Ok(modules) => {
                let scan = Scan { rules, modules, next: 0, found: nothing_found() };
                assert(whole == scan_from(scan, run.io));
                scan_from_only_reads(scan, run.io);
                lemma_truthful_ask(world, io, request, whole, module_queries());
                assert(!any_mountable(scan.found.system.children));
                lemma_scan_bare(world, scan, run.io);
            },
            Err(_) => {},
        },
        _ => {},
    }
}

} // verus!
