//! A module that does not take part makes no difference.

use vstd::prelude::*;
#[allow(unused_imports)]
use vstd::string::StringSliceAdditionalSpecFns;
use vstd::utf8::valid_utf8;

use crate::bytes::joined;
use crate::collect::collected;
use crate::laws::contents::lemma_scanned;
use crate::laws::finding::{truthful, World};
use crate::laws::found::found_provided;
use crate::laws::provenance::{
    home, lemma_absorbed_provided, participates, plain_world, provided,
};
use crate::laws::repeating::{collecting_depends_on_what_is_there, same_end};
use crate::laws::scanning::{
    lemma_checked_now, lemma_dir_now, lemma_module_now, lemma_other_dir_now, lemma_promote_now,
    promoted_in, system_filled,
};
use crate::laws::sources::takes_part_in;
use crate::laws::tree::within;
use crate::node::{lemma_position, position, root_node, NodeView};
use crate::protocol::{
    ask, done, flag_of, listing_of, Entry, FileKind, Io, Outcome, Request, Text,
};
use crate::rules::{supported, takes_part, RulesView};
use crate::scan::{
    builtin_partitions, finished, may_be_other_partition, nothing_found, promote_from, promoted,
    scan_checked, scan_dirs, scan_from, scanned, tree_of, with_partition, Dirs, Found, Scan,
};

verus! {

/// An entry among the modules that does not take part: it is no directory, or there is no
/// description in it, or there is a mark against it.
pub open spec fn idle(world: World, rules: RulesView, module: Entry<Text>) -> bool {
    match module.kind {
        Ok(FileKind::Dir) => valid_utf8(module.name) && !takes_part_in(
            world,
            rules,
            joined(rules.module_dir, module.name),
        ),
        Ok(_) => true,
        Err(_) => false,
    }
}

/// The modules but for the one at `k`, if there is one.
pub open spec fn but_for(modules: Seq<Entry<Text>>, k: int) -> Seq<Entry<Text>> {
    if 0 <= k < modules.len() {
        modules.remove(k)
    } else {
        modules
    }
}

/// Two ways through the modules that have come equally far, the second one without the module at
/// `k`, which does not take part.
spec fn abreast(world: World, one: Scan, other: Scan, k: int) -> bool {
    &&& 0 <= one.next
    &&& other.rules == one.rules
    &&& other.found == one.found
    &&& other.modules == but_for(one.modules, k)
    &&& other.next == (if 0 <= k < one.modules.len() && k < one.next {
        one.next - 1
    } else {
        one.next
    })
    &&& 0 <= k < one.modules.len() ==> idle(world, one.rules, one.modules[k])
}

/// The tree that is made in the end depends on what is there alone.
proof fn lemma_promote_abreast(world: World, k: int, found: Found, one: Io, other: Io)
    requires
        0 <= k <= 5,
        truthful(world, one, promote_from(k, found, one)),
        truthful(world, other, promote_from(k, found, other)),
    ensures
        same_end(promote_from(k, found, one), promote_from(k, found, other)),
    decreases 5 - k,
{
    if k < 5 {
        let next1 = lemma_promote_now(world, k, found, one);
        let next2 = lemma_promote_now(world, k, found, other);
        let run1 = promote_from(k, found, one);
        let run2 = promote_from(k, found, other);
        if !(run1.out is Waiting) && !(run2.out is Waiting) {
            lemma_promote_abreast(world, k + 1, promoted_in(world, k, found), next1, next2);
        }
    }
}

/// Two ways through the modules that have come equally far come to the same end.
proof fn lemma_scan_abreast(world: World, s1: Scan, s2: Scan, k: int, one: Io, other: Io)
    requires
        abreast(world, s1, s2, k),
        truthful(world, one, scan_from(s1, one)),
        truthful(world, other, scan_from(s2, other)),
    ensures
        same_end(scan_from(s1, one), scan_from(s2, other)),
    decreases s1.left(), 10nat, 0nat,
{
    let whole1 = scan_from(s1, one);
    let whole2 = scan_from(s2, other);
    if s1.next >= s1.modules.len() {
        reveal(scan_from);
        assert(whole1 == finished(s1.found, one));
        assert(whole2 == finished(s2.found, other));
        if s1.found.any {
            lemma_promote_abreast(world, 0, s1.found, one, other);
        }
    } else if s1.next == k {
        assert(idle(world, s1.rules, s1.modules[k]));
        if s1.modules[k].kind == Ok::<FileKind, u64>(FileKind::Dir) {
            lemma_module_now(world, s1, one);
            let run = takes_part(s1.rules, s1.path(), one);
            if run.out is Done {
                lemma_scan_abreast(world, s1.passed(), s2, k, run.io, other);
            }
        } else {
            assert(whole1 == scan_from(s1.passed(), one)) by {
                reveal(scan_from);
            }
            lemma_scan_abreast(world, s1.passed(), s2, k, one, other);
        }
    } else {
        let module = s1.modules[s1.next];
        assert(s2.next < s2.modules.len() && s2.modules[s2.next] == module);
        assert(s2.path() == s1.path());
        match module.kind {
            Ok(FileKind::Dir) => {
                if valid_utf8(module.name) {
                    lemma_module_now(world, s1, one);
                    lemma_module_now(world, s2, other);
                    let run1 = takes_part(s1.rules, s1.path(), one);
                    let run2 = takes_part(s2.rules, s2.path(), other);
                    if run1.out is Done && run2.out is Done {
                        if run1.out->Done_0 {
                            lemma_module_abreast(world, s1, s2, k, run1.io, run2.io);
                        } else {
                            lemma_scan_abreast(
                                world,
                                s1.passed(),
                                s2.passed(),
                                k,
                                run1.io,
                                run2.io,
                            );
                        }
                    }
                } else {
                    reveal(scan_from);
                }
            },
            Ok(_) => {
                assert(whole1 == scan_from(s1.passed(), one) && whole2 == scan_from(
                    s2.passed(),
                    other,
                )) by {
                    reveal(scan_from);
                }
                lemma_scan_abreast(world, s1.passed(), s2.passed(), k, one, other);
            },
            Err(_) => {
                reveal(scan_from);
            },
        }
    }
}

/// Two ways through the modules come to the same end from a module that takes part.
proof fn lemma_module_abreast(world: World, s1: Scan, s2: Scan, k: int, one: Io, other: Io)
    requires
        abreast(world, s1, s2, k),
        s1.next < s1.modules.len(),
        s1.next != k,
        truthful(world, one, scan_checked(s1, done(one, true))),
        truthful(world, other, scan_checked(s2, done(other, true))),
    ensures
        same_end(scan_checked(s1, done(one, true)), scan_checked(s2, done(other, true))),
    decreases s1.left(), 9nat, 0nat,
{
    assert(s2.next < s2.modules.len() && s2.modules[s2.next] == s1.modules[s1.next]);
    assert(s2.path() == s1.path());
    lemma_checked_now(world, s1, one);
    lemma_checked_now(world, s2, other);
    let dir = joined(s1.path(), "system".spec_bytes());
    let request = Request::IsDir(dir);
    let looked1 = ask(one, request);
    let looked2 = ask(other, request);
    if looked1.out is Done && looked2.out is Done {
        let has_system = flag_of(world(request));
        let filled1 = system_filled(s1, has_system, looked1.io);
        let filled2 = system_filled(s2, has_system, looked2.io);
        if has_system {
            collecting_depends_on_what_is_there(
                world,
                s1.found.system,
                dir,
                looked1.io,
                looked2.io,
            );
        }
        assert(same_end(filled1, filled2));
        if filled1.out is Done && filled2.out is Done {
            let f = filled1.out->Done_0;
            let list = Request::ListDir(s1.path());
            let listed1 = ask(filled1.io, list);
            let listed2 = ask(filled2.io, list);
            if listed1.out is Done && listed2.out is Done {
                match listing_of(world(list)) {
                    Ok(dirs) => {
                        lemma_dirs_abreast(
                            world,
                            s1.with_system(f.0),
                            s2.with_system(f.0),
                            Dirs { dirs, next: 0, has_file: f.1 },
                            k,
                            listed1.io,
                            listed2.io,
                        );
                    },
                    Err(_) => {},
                }
            }
        }
    }
}

/// Two ways through the modules come to the same end from the directories of a module on.
proof fn lemma_dirs_abreast(
    world: World,
    s1: Scan,
    s2: Scan,
    dirs: Dirs,
    k: int,
    one: Io,
    other: Io,
)
    requires
        abreast(world, s1, s2, k),
        s1.next < s1.modules.len(),
        s1.next != k,
        0 <= dirs.next,
        truthful(world, one, scan_dirs(s1, dirs, one)),
        truthful(world, other, scan_dirs(s2, dirs, other)),
    ensures
        same_end(scan_dirs(s1, dirs, one), scan_dirs(s2, dirs, other)),
    decreases s1.left(), 5nat, 3 * dirs.left(),
{
    assert(s2.next < s2.modules.len() && s2.modules[s2.next] == s1.modules[s1.next]);
    assert(s2.path() == s1.path());
    if dirs.next < dirs.dirs.len() && may_be_other_partition(dirs.dirs[dirs.next]) {
        lemma_dir_now(world, s1, dirs, one);
        lemma_dir_now(world, s2, dirs, other);
        let name = dirs.name();
        let run1 = supported(s1.rules, name, one);
        let run2 = supported(s2.rules, name, other);
        if run1.out is Done && run2.out is Done {
            if run1.out->Done_0 {
                let node = root_node(name);
                let dir = joined(s1.path(), name);
                collecting_depends_on_what_is_there(world, node, dir, run1.io, run2.io);
                let filled1 = collected(node, dir, run1.io);
                let filled2 = collected(node, dir, run2.io);
                if filled1.out is Done && filled2.out is Done {
                    let f = filled1.out->Done_0;
                    let found = with_partition(s1.found, f.0, f.1);
                    lemma_dirs_abreast(
                        world,
                        Scan { found, ..s1 },
                        Scan { found, ..s2 },
                        dirs.passed(f.1),
                        k,
                        filled1.io,
                        filled2.io,
                    );
                }
            } else {
                lemma_dirs_abreast(world, s1, s2, dirs.passed(false), k, run1.io, run2.io);
            }
        }
    } else {
        lemma_other_dir_now(s1, dirs, one);
        lemma_other_dir_now(s2, dirs, other);
        if dirs.next < dirs.dirs.len() {
            lemma_dirs_abreast(world, s1, s2, dirs.passed(false), k, one, other);
        } else {
            let found = Found { any: s1.found.any || dirs.has_file, ..s1.found };
            lemma_scan_abreast(
                world,
                Scan { found, ..s1.passed() },
                Scan { found, ..s2.passed() },
                k,
                one,
                other,
            );
        }
    }
}

/// A module that does not take part makes no difference to the tree: it is the same, or the same
/// error comes up, when that module is not there at all.
pub proof fn idle_modules_make_no_difference(
    world: World,
    rules: RulesView,
    k: int,
    with_it: Io,
    without_it: Io,
)
    requires
        with_it.rest.len() > 0,
        without_it.rest.len() > 0,
        listing_of(with_it.rest[0]) is Ok,
        listing_of(without_it.rest[0]) is Ok,
        ({
            let modules = listing_of(with_it.rest[0])->Ok_0;
            let others = listing_of(without_it.rest[0])->Ok_0;
            let request = Request::ListDir(rules.module_dir);
            &&& 0 <= k < modules.len()
            &&& idle(world, rules, modules[k])
            &&& others == modules.remove(k)
            &&& truthful(world, ask(with_it, request).io, scanned(rules, with_it))
            &&& truthful(world, ask(without_it, request).io, scanned(rules, without_it))
        }),
    ensures
        same_end(scanned(rules, with_it), scanned(rules, without_it)),
{
    let modules = listing_of(with_it.rest[0])->Ok_0;
    let others = listing_of(without_it.rest[0])->Ok_0;
    let request = Request::ListDir(rules.module_dir);
    let s1 = Scan { rules, modules, next: 0, found: nothing_found() };
    let s2 = Scan { rules, modules: others, next: 0, found: nothing_found() };
    let run1 = ask(with_it, request);
    let run2 = ask(without_it, request);
    assert(scanned(rules, with_it) == scan_from(s1, run1.io));
    assert(scanned(rules, without_it) == scan_from(s2, run2.io));
    lemma_scan_abreast(world, s1, s2, k, run1.io, run2.io);
}

/// Making the tree brings no files in.
proof fn lemma_promote_provided(
    world: World,
    rules: RulesView,
    modules: Seq<Entry<Text>>,
    k: int,
    found: Found,
    io: Io,
)
    requires
        0 <= k <= 5,
        found_provided(world, rules, modules, found),
        truthful(world, io, promote_from(k, found, io)),
    ensures
        promote_from(k, found, io).out matches Outcome::Done(Some(tree)) ==> provided(
            world,
            rules,
            modules,
            tree,
        ),
    decreases 5 - k,
{
    let whole = promote_from(k, found, io);
    if k < 5 {
        let next = lemma_promote_now(world, k, found, io);
        let name = builtin_partitions()[k].0;
        let nodes = found.system.children;
        lemma_position(nodes, name);
        if position(nodes, name) is Some {
            let p = position(nodes, name)->0;
            let taken = promoted(found, name);
            assert(provided(world, rules, modules, nodes[p]));
            lemma_absorbed_provided(world, rules, modules, found.root.children, nodes[p]);
            assert forall|i: int| 0 <= i < taken.system.children.len() implies provided(
                world,
                rules,
                modules,
                #[trigger] taken.system.children[i],
            ) by {
                let j = if i < p { i } else { i + 1 };
                assert(taken.system.children[i] == nodes[j]);
            }
            assert(found_provided(world, rules, modules, taken));
        }
        if !(whole.out is Waiting) {
            let taken = promoted_in(world, k, found);
            lemma_promote_provided(world, rules, modules, k + 1, taken, next);
        }
    } else {
        let tree = tree_of(found);
        let nodes = found.root.children;
        lemma_position(nodes, found.system.name);
        assert forall|i: int| 0 <= i < tree.children.len() implies provided(
            world,
            rules,
            modules,
            #[trigger] tree.children[i],
        ) by {
            assert(tree.children[i] == found.system || i < nodes.len() && tree.children[i]
                == nodes[i]);
        }
    }
}

/// All files in the tree come from modules that take part.
pub proof fn files_come_from_participants(world: World, rules: RulesView, io: Io)
    requires
        plain_world(world),
        truthful(world, io, scanned(rules, io)),
    ensures
        scanned(rules, io).out matches Outcome::Done(Some(tree)) ==> {
            listing_of(world(Request::ListDir(rules.module_dir))) matches Ok(modules) && provided(
                world,
                rules,
                modules,
                tree,
            )
        },
{
    let end = lemma_scanned(world, "system".spec_bytes(), rules, io);
    match scanned(rules, io).out {
        Outcome::Done(Some(_)) => {
            let modules = listing_of(world(Request::ListDir(rules.module_dir)))->Ok_0;
            lemma_promote_provided(world, rules, modules, 0, end.0, end.1);
        },
        _ => {},
    }
}

/// No file of a tree is in the directory `base`.
pub open spec fn free_of(base: Text, node: NodeView) -> bool
    decreases node,
{
    &&& node.origin matches Some(p) ==> !within(base, p)
    &&& forall|i: int| 0 <= i < node.children.len() ==> free_of(base, #[trigger] node.children[i])
}

/// A name as a directory's entries have them.
pub open spec fn file_name(name: Text) -> bool {
    name.len() > 0 && !name.contains(47)
}

/// No path leads into the directories of two modules.
proof fn lemma_homes_apart(rules: RulesView, one: Entry<Text>, other: Entry<Text>, path: Text)
    requires
        file_name(one.name),
        file_name(other.name),
        one.name.len() <= other.name.len(),
        within(home(rules, one), path),
        within(home(rules, other), path),
    ensures
        one.name == other.name,
{
    let base = joined(rules.module_dir, Seq::empty());
    let n = base.len() as int;
    let m = one.name.len() as int;
    assert forall|i: int| 0 <= i < one.name.len() implies #[trigger] one.name[i] != 47 by {
        assert(one.name.contains(one.name[i]));
    }
    assert forall|i: int| 0 <= i < other.name.len() implies #[trigger] other.name[i] != 47 by {
        assert(other.name.contains(other.name[i]));
    }
    assert(one.name[0] != 47 && other.name[0] != 47);
    let path1 = joined(rules.module_dir, one.name);
    let path2 = joined(rules.module_dir, other.name);
    assert(path1 =~= base + one.name);
    assert(path2 =~= base + other.name);
    assert(path1.last() == one.name[m - 1]);
    assert(path2.last() == other.name[other.name.len() - 1]);
    let home1 = home(rules, one);
    let home2 = home(rules, other);
    assert(home1 =~= path1.push(47));
    assert(home2 =~= path2.push(47));
    assert forall|i: int| 0 <= i < home1.len() implies #[trigger] home1[i] == path[i] by {
        assert(path.take(home1.len() as int)[i] == path[i]);
    }
    assert forall|i: int| 0 <= i < home2.len() implies #[trigger] home2[i] == path[i] by {
        assert(path.take(home2.len() as int)[i] == path[i]);
    }
    if m < other.name.len() {
        assert(home1[n + m] == 47);
        assert(home2[n + m] == other.name[m]);
    }
    assert forall|i: int| 0 <= i < m implies one.name[i] == other.name[i] by {
        assert(home1[n + i] == one.name[i]);
        assert(home2[n + i] == other.name[i]);
    }
    assert(one.name =~= other.name);
}

/// A tree whose files come from modules that take part has none of a module that does not.
proof fn lemma_free_of(
    world: World,
    rules: RulesView,
    modules: Seq<Entry<Text>>,
    k: int,
    node: NodeView,
)
    requires
        0 <= k < modules.len(),
        forall|j: int| 0 <= j < modules.len() ==> file_name((#[trigger] modules[j]).name),
        forall|j: int|
            0 <= j < modules.len() && j != k ==> (#[trigger] modules[j]).name != modules[k].name,
        !participates(world, rules, modules[k]),
        provided(world, rules, modules, node),
    ensures
        free_of(home(rules, modules[k]), node),
    decreases node,
{
    let base = home(rules, modules[k]);
    match node.origin {
        Some(p) => {
            if within(base, p) {
                let j = choose|j: int|
                    0 <= j < modules.len() && participates(world, rules, #[trigger] modules[j])
                        && within(home(rules, modules[j]), p);
                assert(file_name(modules[j].name) && file_name(modules[k].name));
                if modules[j].name.len() <= modules[k].name.len() {
                    lemma_homes_apart(rules, modules[j], modules[k], p);
                } else {
                    lemma_homes_apart(rules, modules[k], modules[j], p);
                }
            }
        },
        None => {},
    }
    assert forall|i: int| 0 <= i < node.children.len() implies free_of(
        base,
        #[trigger] node.children[i],
    ) by {
        assert(provided(world, rules, modules, node.children[i]));
        lemma_free_of(world, rules, modules, k, node.children[i]);
    }
}

/// No file in the tree comes from a module that does not take part.
pub proof fn idle_modules_provide_nothing(world: World, rules: RulesView, k: int, io: Io)
    requires
        plain_world(world),
        truthful(world, io, scanned(rules, io)),
        listing_of(world(Request::ListDir(rules.module_dir))) matches Ok(modules) ==> {
            &&& 0 <= k < modules.len()
            &&& idle(world, rules, modules[k])
            &&& forall|j: int|
                0 <= j < modules.len() ==> file_name((#[trigger] modules[j]).name)
            &&& forall|j: int|
                0 <= j < modules.len() && j != k ==> (#[trigger] modules[j]).name
                    != modules[k].name
        },
    ensures
        scanned(rules, io).out matches Outcome::Done(Some(tree)) ==> {
            listing_of(world(Request::ListDir(rules.module_dir))) matches Ok(modules) && free_of(
                home(rules, modules[k]),
                tree,
            )
        },
{
    files_come_from_participants(world, rules, io);
    match scanned(rules, io).out {
        Outcome::Done(Some(tree)) => {
            let modules = listing_of(world(Request::ListDir(rules.module_dir)))->Ok_0;
            lemma_free_of(world, rules, modules, k, tree);
        },
        _ => {},
    }
}

} // verus!
