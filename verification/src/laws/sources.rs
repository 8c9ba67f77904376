//! The directories that overlays are made of are those that are there.

use vstd::prelude::*;
#[allow(unused_imports)]
use vstd::string::StringSliceAdditionalSpecFns;
use vstd::utf8::valid_utf8;

use crate::bytes::joined;
use crate::laws::conversation::lemma_weaken;
use crate::laws::device::plain_name;
use crate::laws::finding::{lemma_truthful_ask, lemma_truthful_parts, truthful, World};
use crate::laws::provenance::participates;
use crate::laws::reading::{
    lemma_asked, module_queries, none_exists_only_reads, queries, search_dirs_only_reads,
    search_only_reads, supported_only_reads, takes_part_only_reads,
};
use crate::overlay::{
    lemma_place, partitions_found, place, search, search_checked, search_dirs, search_listed,
    search_source, search_supported, with_source, PartitionView, Search,
};
use crate::protocol::{
    ask, flag_of, listing_of, still_to_come, Entry, Error, FileKind, Io, Outcome, Request, Run,
    Text,
};
use crate::rules::{
    device_dir, marker_paths, may_be_partition, none_exists, supported, supported_dir, takes_part,
    RulesView,
};

verus! {

/// A module that is described and has no mark against it.
pub open spec fn takes_part_in(world: World, rules: RulesView, path: Text) -> bool {
    &&& flag_of(world(Request::Exists(joined(path, "module.prop".spec_bytes()))))
    &&& none_there(world, marker_paths(rules, path), 0)
}

/// None of the paths from `i` on exists.
pub open spec fn none_there(world: World, paths: Seq<Text>, i: int) -> bool {
    forall|k: int| i <= k < paths.len() ==> !flag_of(world(Request::Exists(#[trigger] paths[k])))
}

/// A supported partition that the device has.
pub open spec fn supported_in(world: World, rules: RulesView, name: Text) -> bool {
    &&& rules.supported_partitions.contains(name)
    &&& flag_of(world(Request::IsDir(device_dir(name)))) || flag_of(
        world(Request::IsSymlink(device_dir(name))),
    )
}

/// Looking for files finds what is there.
proof fn lemma_none_there(world: World, paths: Seq<Text>, i: int, io: Io)
    requires
        0 <= i,
        truthful(world, io, none_exists(paths, i, io)),
    ensures
        none_exists(paths, i, io).out matches Outcome::Done(b) ==> b == none_there(
            world,
            paths,
            i,
        ),
    decreases paths.len() - i,
{
    if i < paths.len() {
        let whole = none_exists(paths, i, io);
        let request = Request::Exists(paths[i]);
        let run = ask(io, request);
        if run.out is Done {
            none_exists_only_reads(paths, i, io);
            none_exists_only_reads(paths, i + 1, run.io);
            if flag_of(io.rest[0]) {
                assert(whole.io.asked[io.asked.len() as int] == request);
                assert(flag_of(world(Request::Exists(paths[i]))));
            } else {
                lemma_truthful_ask(world, io, request, whole, queries());
                lemma_none_there(world, paths, i + 1, run.io);
            }
        }
    }
}

/// A module takes part exactly if it is described and has no mark against it.
pub proof fn participants_are_as_found(world: World, rules: RulesView, path: Text, io: Io)
    requires
        truthful(world, io, takes_part(rules, path, io)),
    ensures
        takes_part(rules, path, io).out matches Outcome::Done(b) ==> b == takes_part_in(
            world,
            rules,
            path,
        ),
{
    let whole = takes_part(rules, path, io);
    let request = Request::Exists(joined(path, "module.prop".spec_bytes()));
    let run = ask(io, request);
    if run.out is Done {
        if flag_of(io.rest[0]) {
            none_exists_only_reads(marker_paths(rules, path), 0, run.io);
            lemma_truthful_ask(world, io, request, whole, queries());
            lemma_none_there(world, marker_paths(rules, path), 0, run.io);
        } else {
            assert(whole.io.asked[io.asked.len() as int] == request);
        }
    }
}

/// A partition is supported exactly if it is listed and the device has it.
pub proof fn supported_partitions_are_as_found(world: World, rules: RulesView, name: Text, io: Io)
    requires
        truthful(world, io, supported(rules, name, io)),
    ensures
        supported(rules, name, io).out matches Outcome::Done(b) ==> b == supported_in(
            world,
            rules,
            name,
        ),
{
    let whole = supported(rules, name, io);
    let request = Request::IsDir(device_dir(name));
    let run = ask(io, request);
    if rules.supported_partitions.contains(name) && run.out is Done {
        assert(whole == supported_dir(name, io.rest[0], run.io));
        assert(whole.io.asked[io.asked.len() as int] == request);
        if !flag_of(io.rest[0]) && run.io.rest.len() > 0 {
            assert(whole.io.asked[io.asked.len() as int + 1] == Request::IsSymlink(
                device_dir(name),
            ));
            assert(run.io.rest[0] == io.rest[1]);
        }
    }
}

/// A directory is listed for a partition as that of a module.
pub open spec fn has_source(
    partitions: Seq<PartitionView>,
    name: Text,
    module: Text,
    path: Text,
) -> bool {
    exists|p: int|
        0 <= p < partitions.len() && (#[trigger] partitions[p]).name == name
            && partitions[p].sources.contains((module, path))
}

/// An entry of a module's directory that is to be listed for a partition.
pub open spec fn is_source(world: World, rules: RulesView, path: Text, entry: Entry<Text>) -> bool {
    &&& may_be_partition(entry)
    &&& supported_in(world, rules, entry.name)
    &&& flag_of(world(Request::IsDir(joined(path, entry.name))))
}

/// All directories of a module from the one at `i` on are listed that are to be.
pub open spec fn all_listed(
    world: World,
    rules: RulesView,
    module: Text,
    dirs: Seq<Entry<Text>>,
    i: int,
    partitions: Seq<PartitionView>,
) -> bool {
    let path = joined(rules.module_dir, module);
    forall|j: int|
        i <= j < dirs.len() && is_source(world, rules, path, #[trigger] dirs[j]) ==> has_source(
            partitions,
            dirs[j].name,
            module,
            joined(path, dirs[j].name),
        )
}

/// A module that takes part has all its directories listed that are to be.
pub open spec fn module_listed(
    world: World,
    rules: RulesView,
    module: Entry<Text>,
    partitions: Seq<PartitionView>,
) -> bool {
    let path = joined(rules.module_dir, module.name);
    module.kind == Ok::<FileKind, u64>(FileKind::Dir) && takes_part_in(world, rules, path) ==> {
        &&& listing_of(world(Request::ListDir(path))) matches Ok(dirs) && all_listed(
            world,
            rules,
            module.name,
            dirs,
            0,
            partitions,
        )
    }
}

/// The partitions that were found, none if there are none.
pub open spec fn found_partitions(found: Option<Seq<PartitionView>>) -> Seq<PartitionView> {
    match found {
        Some(partitions) => partitions,
        None => Seq::empty(),
    }
}

/// What is listed in one list is listed in another.
spec fn keeps_sources(few: Seq<PartitionView>, many: Seq<PartitionView>) -> bool {
    forall|name: Text, module: Text, path: Text| #[trigger]
        has_source(few, name, module, path) ==> has_source(many, name, module, path)
}

/// Adding a source adds just that one.
proof fn lemma_source_added(
    partitions: Seq<PartitionView>,
    name: Text,
    module: Text,
    path: Text,
)
    ensures
        has_source(with_source(partitions, name, module, path), name, module, path),
        keeps_sources(partitions, with_source(partitions, name, module, path)),
{
    let more = with_source(partitions, name, module, path);
    lemma_place(partitions, name);
    let k = match place(partitions, name) {
        Some(k) => k,
        None => partitions.len() as int,
    };
    assert(more[k].name == name);
    assert(more[k].sources.last() == (module, path));
    assert(more[k].sources.contains((module, path)));
    assert forall|n: Text, m: Text, p: Text| #[trigger]
        has_source(partitions, n, m, p) implies has_source(more, n, m, p) by {
        let i = choose|i: int|
            0 <= i < partitions.len() && (#[trigger] partitions[i]).name == n
                && partitions[i].sources.contains((m, p));
        assert(more[i].name == n);
        if i == k {
            let j = choose|j: int|
                0 <= j < partitions[i].sources.len() && partitions[i].sources[j] == (m, p);
            assert(more[i].sources[j] == (m, p));
        }
    }
}

/// What is known of the end of a way through the modules.
spec fn search_complete(world: World, s: Search, run: Run<Option<Seq<PartitionView>>>) -> bool {
    run.out matches Outcome::Done(found) ==> {
        &&& keeps_sources(s.partitions, found_partitions(found))
        &&& forall|k: int|
            s.next <= k < s.modules.len() ==> module_listed(
                world,
                s.rules,
                #[trigger] s.modules[k],
                found_partitions(found),
            )
    }
}

/// No directory of the modules that are still to come is missed.
proof fn lemma_search_complete(world: World, s: Search, io: Io)
    requires
        0 <= s.next,
        truthful(world, io, search(s, io)),
    ensures
        search_complete(world, s, search(s, io)),
    decreases s.left(), 10nat, 0nat,
{
    reveal(search);
    reveal(search_dirs);
    let q = module_queries();
    let whole = search(s, io);
    if s.next < s.modules.len() {
        match s.modules[s.next].kind {
            Ok(FileKind::Dir) => {
                if valid_utf8(s.module()) {
                    let run = takes_part(s.rules, s.path(), io);
                    takes_part_only_reads(s.rules, s.path(), io);
                    lemma_weaken(io, run, queries(), q);
                    assert(whole == search_checked(s, run));
                    match run.out {
                        Outcome::Done(true) => {
                            let list = Request::ListDir(s.path());
                            let listed = ask(run.io, list);
                            assert(whole == search_listed(s, listed));
                            match listed.out {
                                Outcome::Done(reply) => match listing_of(reply) {
                                    Ok(dirs) => {
                                        assert(whole == search_dirs(s, dirs, 0, listed.io));
                                        search_dirs_only_reads(s, dirs, 0, listed.io);
                                        lemma_asked(run.io, list, whole, q);
                                        lemma_truthful_parts(world, io, run, whole, q);
                                        lemma_truthful_ask(world, run.io, list, whole, q);
                                        lemma_dirs_complete(world, s, dirs, 0, listed.io);
                                    },
                                    Err(_) => {},
                                },
                                _ => {},
                            }
                        },
                        Outcome::Done(false) => {
                            search_only_reads(s.passed(), run.io);
                            lemma_truthful_parts(world, io, run, whole, q);
                            participants_are_as_found(world, s.rules, s.path(), io);
                            lemma_search_complete(world, s.passed(), run.io);
                        },
                        _ => {},
                    }
                }
            },
            Ok(_) => {
                lemma_search_complete(world, s.passed(), io);
            },
            Err(_) => {},
        }
    }
}

/// No directory of a module that is still to come is missed.
proof fn lemma_dirs_complete(world: World, s: Search, dirs: Seq<Entry<Text>>, j: int, io: Io)
    requires
        0 <= s.next < s.modules.len(),
        0 <= j,
        truthful(world, io, search_dirs(s, dirs, j, io)),
    ensures
        search_dirs(s, dirs, j, io).out matches Outcome::Done(found) ==> {
            &&& keeps_sources(s.partitions, found_partitions(found))
            &&& all_listed(world, s.rules, s.module(), dirs, j, found_partitions(found))
            &&& forall|k: int|
                s.next < k < s.modules.len() ==> module_listed(
                    world,
                    s.rules,
                    #[trigger] s.modules[k],
                    found_partitions(found),
                )
        },
    decreases s.left(), 7nat, 3 * still_to_come(dirs, j),
{
    reveal(search);
    reveal(search_dirs);
    let q = module_queries();
    let whole = search_dirs(s, dirs, j, io);
    if j >= dirs.len() {
        lemma_search_complete(world, s.passed(), io);
    } else if may_be_partition(dirs[j]) {
        let name = dirs[j].name;
        let run = supported(s.rules, name, io);
        supported_only_reads(s.rules, name, io);
        lemma_weaken(io, run, queries(), q);
        assert(whole == search_supported(s, dirs, j, run));
        match run.out {
            Outcome::Done(true) => {
                let request = Request::IsDir(joined(s.path(), name));
                let next = ask(run.io, request);
                assert(whole == search_source(s, dirs, j, next));
                match next.out {
                    Outcome::Done(reply) => {
                        let rest = if flag_of(reply) {
                            s.with(name)
                        } else {
                            s
                        };
                        assert(whole == search_dirs(rest, dirs, j + 1, next.io));
                        search_dirs_only_reads(rest, dirs, j + 1, next.io);
                        lemma_asked(run.io, request, whole, q);
                        lemma_truthful_parts(world, io, run, whole, q);
                        lemma_truthful_ask(world, run.io, request, whole, q);
                        lemma_dirs_complete(world, rest, dirs, j + 1, next.io);
                        lemma_source_added(
                            s.partitions,
                            name,
                            s.module(),
                            joined(s.path(), name),
                        );
                    },
                    _ => {},
                }
            },
            Outcome::Done(false) => {
                search_dirs_only_reads(s, dirs, j + 1, run.io);
                lemma_truthful_parts(world, io, run, whole, q);
                supported_partitions_are_as_found(world, s.rules, name, io);
                lemma_dirs_complete(world, s, dirs, j + 1, run.io);
            },
            _ => {},
        }
    } else {
        lemma_dirs_complete(world, s, dirs, j + 1, io);
    }
}

/// For each module that takes part, each of its directories is listed that is named like a
/// supported partition of the device.
pub proof fn no_source_is_missed(world: World, rules: RulesView, io: Io)
    requires
        truthful(world, io, partitions_found(rules, io)),
    ensures
        partitions_found(rules, io).out matches Outcome::Done(found) ==> {
            &&& listing_of(world(Request::ListDir(rules.module_dir))) matches Ok(modules)
                && forall|k: int|
                0 <= k < modules.len() ==> module_listed(
                    world,
                    rules,
                    #[trigger] modules[k],
                    found_partitions(found),
                )
        },
{
    let whole = partitions_found(rules, io);
    let request = Request::ListDir(rules.module_dir);
    let run = ask(io, request);
    match run.out {
        Outcome::Done(reply) => match listing_of(reply) {
            Ok(modules) => {
                let s = Search { rules, modules, next: 0, partitions: Seq::empty() };
                assert(whole == search(s, run.io));
                search_only_reads(s, run.io);
                lemma_truthful_ask(world, io, request, whole, module_queries());
                lemma_search_complete(world, s, run.io);
                assert(listing_of(world(request)) == Ok::<Seq<Entry<Text>>, Error<Text>>(modules));
                match whole.out {
                    Outcome::Done(found) => {
                        assert forall|k: int| 0 <= k < modules.len() implies module_listed(
                            world,
                            rules,
                            #[trigger] modules[k],
                            found_partitions(found),
                        ) by {
                            assert(s.modules[k] == modules[k]);
                        }
                    },
                    _ => {},
                }
            },
            Err(_) => {},
        },
        _ => {},
    }
}

/// A source of a partition is the directory of that name in the directory of a module that takes
/// part, and is there.
pub open spec fn source_in(
    world: World,
    rules: RulesView,
    modules: Seq<Entry<Text>>,
    name: Text,
    source: (Text, Text),
) -> bool {
    exists|k: int|
        0 <= k < modules.len() && participates(world, rules, #[trigger] modules[k])
            && modules[k].name == source.0 && source.1 == joined(
            joined(rules.module_dir, source.0),
            name,
        ) && flag_of(world(Request::IsDir(source.1)))
}

/// A supported partition of the device under a plain name, with sources that are there.
pub open spec fn sourced_in(
    world: World,
    rules: RulesView,
    modules: Seq<Entry<Text>>,
    partition: PartitionView,
) -> bool {
    &&& supported_in(world, rules, partition.name)
    &&& plain_name(partition.name)
    &&& partition.sources.len() > 0
    &&& forall|i: int|
        0 <= i < partition.sources.len() ==> source_in(
            world,
            rules,
            modules,
            partition.name,
            #[trigger] partition.sources[i],
        )
}

/// The modules that sources come from follow each other as in the list of modules, each once and
/// before `bound`.
pub open spec fn each_once(
    modules: Seq<Entry<Text>>,
    sources: Seq<(Text, Text)>,
    bound: int,
) -> bool
    decreases sources.len(),
{
    sources.len() > 0 ==> exists|k: int|
        0 <= k < bound && k < modules.len() && (#[trigger] modules[k]).name == sources.last().0
            && each_once(modules, sources.drop_last(), k)
}

/// No two entries of a directory have the same name.
pub open spec fn no_twins_in(world: World, dir: Text) -> bool {
    listing_of(world(Request::ListDir(dir))) matches Ok(entries) ==> forall|i: int, j: int|
        0 <= i < j < entries.len() ==> (#[trigger] entries[i]).name != (#[trigger] entries[j]).name
}

/// No two entries of the same directory have the same name.
pub open spec fn no_twins(world: World) -> bool {
    forall|dir: Text| #[trigger] no_twins_in(world, dir)
}

/// Sources that come each once stay so when later modules are allowed.
proof fn lemma_each_once_later(
    modules: Seq<Entry<Text>>,
    sources: Seq<(Text, Text)>,
    bound: int,
    later: int,
)
    requires
        each_once(modules, sources, bound),
        bound <= later,
    ensures
        each_once(modules, sources, later),
{
    if sources.len() > 0 {
        let k = choose|k: int|
            0 <= k < bound && k < modules.len() && (#[trigger] modules[k]).name == sources.last().0
                && each_once(modules, sources.drop_last(), k);
        assert(modules[k].name == sources.last().0);
    }
}

/// Sources that come each once before any bound do so before the end.
proof fn lemma_each_once_bounded(
    modules: Seq<Entry<Text>>,
    sources: Seq<(Text, Text)>,
    bound: int,
)
    requires
        each_once(modules, sources, bound),
    ensures
        each_once(modules, sources, modules.len() as int),
{
    if sources.len() > 0 {
        let k = choose|k: int|
            0 <= k < bound && k < modules.len() && (#[trigger] modules[k]).name == sources.last().0
                && each_once(modules, sources.drop_last(), k);
        assert(modules[k].name == sources.last().0);
    }
}

/// What is known of partitions that were found: their sources are there and, where no names occur
/// twice, each module before `bound` gave at most one. For the partitions that the module at
/// `bound` has been asked for, up to the `j`th of its directories, it may have given one too.
spec fn soundly_found(
    world: World,
    rules: RulesView,
    modules: Seq<Entry<Text>>,
    bound: int,
    dirs: Seq<Entry<Text>>,
    j: int,
    partitions: Seq<PartitionView>,
) -> bool {
    forall|p: int|
        0 <= p < partitions.len() ==> {
            &&& sourced_in(world, rules, modules, #[trigger] partitions[p])
            &&& no_twins(world) ==> each_once(
                modules,
                partitions[p].sources,
                if among(dirs, j, partitions[p].name) {
                    bound + 1
                } else {
                    bound
                },
            )
        }
}

/// One of the directories before the `j`th has that name.
spec fn among(dirs: Seq<Entry<Text>>, j: int, name: Text) -> bool {
    exists|i: int| 0 <= i < j && i < dirs.len() && (#[trigger] dirs[i]).name == name
}

/// One more directory of a module is a sound source.
proof fn lemma_sound_source(world: World, s: Search, dirs: Seq<Entry<Text>>, j: int)
    requires
        0 <= s.next < s.modules.len(),
        participates(world, s.rules, s.modules[s.next]),
        0 <= j < dirs.len(),
        listing_of(world(Request::ListDir(s.path()))) == Ok::<Seq<Entry<Text>>, Error<Text>>(dirs),
        supported_in(world, s.rules, dirs[j].name),
        plain_name(dirs[j].name),
        flag_of(world(Request::IsDir(joined(s.path(), dirs[j].name)))),
        soundly_found(world, s.rules, s.modules, s.next, dirs, j, s.partitions),
    ensures
        soundly_found(
            world,
            s.rules,
            s.modules,
            s.next,
            dirs,
            j + 1,
            s.with(dirs[j].name).partitions,
        ),
{
    let name = dirs[j].name;
    let old_list = s.partitions;
    let new_list = s.with(name).partitions;
    let source = (s.module(), joined(s.path(), name));
    lemma_place(old_list, name);
    lemma_sound_passed(world, s, dirs, j);
    let (k, sources) = match place(old_list, name) {
        Some(k) => (k, old_list[k].sources),
        None => (old_list.len() as int, Seq::<(Text, Text)>::empty()),
    };
    let partition = PartitionView { name, sources: sources.push(source) };
    assert(Seq::<(Text, Text)>::empty().push(source) =~= seq![source]);
    assert(new_list[k] == partition);
    assert(source_in(world, s.rules, s.modules, name, source)) by {
        assert(participates(world, s.rules, s.modules[s.next]));
    }
    assert(among(dirs, j + 1, name)) by {
        assert(dirs[j].name == name);
    }
    if no_twins(world) {
        assert(!among(dirs, j, name)) by {
            assert(no_twins_in(world, s.path()));
            let entries = listing_of(world(Request::ListDir(s.path())))->Ok_0;
            if among(dirs, j, name) {
                let i = choose|i: int|
                    0 <= i < j && i < dirs.len() && (#[trigger] dirs[i]).name == name;
                assert(entries[i].name != entries[j].name);
            }
        }
        if place(old_list, name) is Some {
            assert(sourced_in(world, s.rules, s.modules, old_list[k]));
            assert(each_once(s.modules, sources, s.next));
        }
        assert(partition.sources.drop_last() =~= sources);
        assert(each_once(s.modules, partition.sources.drop_last(), s.next));
        assert(s.modules[s.next].name == partition.sources.last().0);
        assert(each_once(s.modules, partition.sources, s.next + 1));
    }
    assert forall|p: int| 0 <= p < new_list.len() implies {
        &&& sourced_in(world, s.rules, s.modules, #[trigger] new_list[p])
        &&& no_twins(world) ==> each_once(
            s.modules,
            new_list[p].sources,
            if among(dirs, j + 1, new_list[p].name) {
                s.next + 1
            } else {
                s.next
            },
        )
    } by {
        if p == k {
            assert forall|i: int| 0 <= i < partition.sources.len() implies source_in(
                world,
                s.rules,
                s.modules,
                name,
                #[trigger] partition.sources[i],
            ) by {
                if i < sources.len() {
                    assert(sourced_in(world, s.rules, s.modules, old_list[k]));
                    assert(partition.sources[i] == old_list[k].sources[i]);
                }
            }
        } else {
            assert(new_list[p] == old_list[p]);
            assert(sourced_in(world, s.rules, s.modules, old_list[p]));
        }
    }
}

/// Whether a name is among one more directory.
proof fn lemma_among_next(dirs: Seq<Entry<Text>>, j: int, name: Text)
    requires
        0 <= j < dirs.len(),
        dirs[j].name != name,
    ensures
        among(dirs, j + 1, name) == among(dirs, j, name),
{
    if among(dirs, j + 1, name) {
        let i = choose|i: int|
            0 <= i < j + 1 && i < dirs.len() && (#[trigger] dirs[i]).name == name;
        assert(0 <= i < j);
    }
    if among(dirs, j, name) {
        let i = choose|i: int| 0 <= i < j && i < dirs.len() && (#[trigger] dirs[i]).name == name;
        assert(0 <= i < j + 1);
    }
}

/// A directory that is no source leaves what was found as it is.
proof fn lemma_sound_passed(world: World, s: Search, dirs: Seq<Entry<Text>>, j: int)
    requires
        0 <= j < dirs.len(),
        soundly_found(world, s.rules, s.modules, s.next, dirs, j, s.partitions),
    ensures
        soundly_found(world, s.rules, s.modules, s.next, dirs, j + 1, s.partitions),
{
    assert forall|p: int| 0 <= p < s.partitions.len() implies {
        &&& sourced_in(world, s.rules, s.modules, #[trigger] s.partitions[p])
        &&& no_twins(world) ==> each_once(
            s.modules,
            s.partitions[p].sources,
            if among(dirs, j + 1, s.partitions[p].name) {
                s.next + 1
            } else {
                s.next
            },
        )
    } by {
        let name = s.partitions[p].name;
        assert(sourced_in(world, s.rules, s.modules, s.partitions[p]));
        if dirs[j].name != name {
            lemma_among_next(dirs, j, name);
        } else if no_twins(world) {
            assert(among(dirs, j + 1, name));
            if !among(dirs, j, name) {
                lemma_each_once_later(
                    s.modules,
                    s.partitions[p].sources,
                    s.next,
                    s.next + 1,
                );
            }
        }
    }
}

/// A module with all its directories behind it leaves what was found sound for the next one.
proof fn lemma_sound_next(world: World, s: Search, dirs: Seq<Entry<Text>>, j: int)
    requires
        soundly_found(world, s.rules, s.modules, s.next, dirs, j, s.partitions),
    ensures
        soundly_found(
            world,
            s.rules,
            s.modules,
            s.next + 1,
            Seq::empty(),
            0,
            s.partitions,
        ),
{
    assert forall|p: int| 0 <= p < s.partitions.len() implies {
        &&& sourced_in(world, s.rules, s.modules, #[trigger] s.partitions[p])
        &&& no_twins(world) ==> each_once(
            s.modules,
            s.partitions[p].sources,
            if among(Seq::empty(), 0, s.partitions[p].name) {
                s.next + 2
            } else {
                s.next + 1
            },
        )
    } by {
        assert(sourced_in(world, s.rules, s.modules, s.partitions[p]));
        if no_twins(world) && !among(dirs, j, s.partitions[p].name) {
            lemma_each_once_later(s.modules, s.partitions[p].sources, s.next, s.next + 1);
        }
    }
}

/// What is known of the partitions in the end.
spec fn search_sound(world: World, s: Search, run: Run<Option<Seq<PartitionView>>>) -> bool {
    run.out matches Outcome::Done(Some(partitions)) ==> forall|p: int|
        0 <= p < partitions.len() ==> {
            &&& sourced_in(world, s.rules, s.modules, #[trigger] partitions[p])
            &&& no_twins(world) ==> each_once(
                s.modules,
                partitions[p].sources,
                s.modules.len() as int,
            )
        }
}

/// What the modules that are still to come add is sound.
proof fn lemma_search_sound(world: World, s: Search, io: Io)
    requires
        0 <= s.next,
        soundly_found(world, s.rules, s.modules, s.next, Seq::empty(), 0, s.partitions),
        truthful(world, io, search(s, io)),
    ensures
        search_sound(world, s, search(s, io)),
    decreases s.left(), 10nat, 0nat,
{
    reveal(search);
    reveal(search_dirs);
    let q = module_queries();
    let whole = search(s, io);
    if s.next >= s.modules.len() {
        assert forall|p: int| 0 <= p < s.partitions.len() implies {
            &&& sourced_in(world, s.rules, s.modules, #[trigger] s.partitions[p])
            &&& no_twins(world) ==> each_once(
                s.modules,
                s.partitions[p].sources,
                s.modules.len() as int,
            )
        } by {
            assert(sourced_in(world, s.rules, s.modules, s.partitions[p]));
            if no_twins(world) {
                lemma_each_once_bounded(s.modules, s.partitions[p].sources, s.next);
            }
        }
    } else {
        lemma_sound_next(world, s, Seq::empty(), 0);
        match s.modules[s.next].kind {
            Ok(FileKind::Dir) => {
                if valid_utf8(s.module()) {
                    let run = takes_part(s.rules, s.path(), io);
                    takes_part_only_reads(s.rules, s.path(), io);
                    lemma_weaken(io, run, queries(), q);
                    assert(whole == search_checked(s, run));
                    match run.out {
                        Outcome::Done(true) => {
                            let list = Request::ListDir(s.path());
                            let listed = ask(run.io, list);
                            assert(whole == search_listed(s, listed));
                            match listed.out {
                                Outcome::Done(reply) => match listing_of(reply) {
                                    Ok(dirs) => {
                                        assert(whole == search_dirs(s, dirs, 0, listed.io));
                                        search_dirs_only_reads(s, dirs, 0, listed.io);
                                        lemma_asked(run.io, list, whole, q);
                                        lemma_truthful_parts(world, io, run, whole, q);
                                        lemma_truthful_ask(world, run.io, list, whole, q);
                                        participants_are_as_found(world, s.rules, s.path(), io);
                                        lemma_sound_start(world, s, dirs);
                                        lemma_dirs_sound(world, s, dirs, 0, listed.io);
                                    },
                                    Err(_) => {},
                                },
                                _ => {},
                            }
                        },
                        Outcome::Done(false) => {
                            search_only_reads(s.passed(), run.io);
                            lemma_truthful_parts(world, io, run, whole, q);
                            lemma_search_sound(world, s.passed(), run.io);
                        },
                        _ => {},
                    }
                }
            },
            Ok(_) => {
                lemma_search_sound(world, s.passed(), io);
            },
            Err(_) => {},
        }
    }
}

/// Before its first directory a module has given no sources.
proof fn lemma_sound_start(world: World, s: Search, dirs: Seq<Entry<Text>>)
    requires
        soundly_found(world, s.rules, s.modules, s.next, Seq::empty(), 0, s.partitions),
    ensures
        soundly_found(world, s.rules, s.modules, s.next, dirs, 0, s.partitions),
{
    assert forall|p: int| 0 <= p < s.partitions.len() implies {
        &&& sourced_in(world, s.rules, s.modules, #[trigger] s.partitions[p])
        &&& no_twins(world) ==> each_once(
            s.modules,
            s.partitions[p].sources,
            if among(dirs, 0, s.partitions[p].name) {
                s.next + 1
            } else {
                s.next
            },
        )
    } by {
        assert(sourced_in(world, s.rules, s.modules, s.partitions[p]));
        assert(!among(Seq::empty(), 0, s.partitions[p].name));
    }
}

/// What the directories of a module that are still to come add is sound.
proof fn lemma_dirs_sound(world: World, s: Search, dirs: Seq<Entry<Text>>, j: int, io: Io)
    requires
        0 <= s.next < s.modules.len(),
        participates(world, s.rules, s.modules[s.next]),
        0 <= j <= dirs.len(),
        listing_of(world(Request::ListDir(s.path()))) == Ok::<Seq<Entry<Text>>, Error<Text>>(dirs),
        soundly_found(world, s.rules, s.modules, s.next, dirs, j, s.partitions),
        truthful(world, io, search_dirs(s, dirs, j, io)),
    ensures
        search_sound(world, s, search_dirs(s, dirs, j, io)),
    decreases s.left(), 7nat, 3 * still_to_come(dirs, j),
{
    reveal(search);
    reveal(search_dirs);
    let q = module_queries();
    let whole = search_dirs(s, dirs, j, io);
    if j >= dirs.len() {
        lemma_sound_next(world, s, dirs, j);
        lemma_search_sound(world, s.passed(), io);
    } else if may_be_partition(dirs[j]) {
        let name = dirs[j].name;
        let run = supported(s.rules, name, io);
        supported_only_reads(s.rules, name, io);
        lemma_weaken(io, run, queries(), q);
        assert(whole == search_supported(s, dirs, j, run));
        match run.out {
            Outcome::Done(true) => {
                let request = Request::IsDir(joined(s.path(), name));
                let next = ask(run.io, request);
                assert(whole == search_source(s, dirs, j, next));
                match next.out {
                    Outcome::Done(reply) => {
                        let rest = if flag_of(reply) {
                            s.with(name)
                        } else {
                            s
                        };
                        assert(whole == search_dirs(rest, dirs, j + 1, next.io));
                        search_dirs_only_reads(rest, dirs, j + 1, next.io);
                        lemma_asked(run.io, request, whole, q);
                        lemma_truthful_parts(world, io, run, whole, q);
                        lemma_truthful_ask(world, run.io, request, whole, q);
                        supported_partitions_are_as_found(world, s.rules, name, io);
                        if flag_of(reply) {
                            lemma_sound_source(world, s, dirs, j);
                        } else {
                            lemma_sound_passed(world, s, dirs, j);
                        }
                        lemma_dirs_sound(world, rest, dirs, j + 1, next.io);
                    },
                    _ => {},
                }
            },
            Outcome::Done(false) => {
                search_dirs_only_reads(s, dirs, j + 1, run.io);
                lemma_truthful_parts(world, io, run, whole, q);
                lemma_sound_passed(world, s, dirs, j);
                lemma_dirs_sound(world, s, dirs, j + 1, run.io);
            },
            _ => {},
        }
    } else {
        lemma_sound_passed(world, s, dirs, j);
        lemma_dirs_sound(world, s, dirs, j + 1, io);
    }
}

/// Each partition that is found is a supported one that the device has, and its name is text
/// without a dot at the start and not that of the scripts for installing. Each of its sources is a
/// directory, in the directory of a module that takes part. Where no two entries of a directory
/// have the same name, each module gives at most one source, and they are in the order of the
/// modules.
pub proof fn sources_are_as_found(world: World, rules: RulesView, io: Io)
    requires
        truthful(world, io, partitions_found(rules, io)),
    ensures
        partitions_found(rules, io).out matches Outcome::Done(Some(partitions)) ==> {
            listing_of(world(Request::ListDir(rules.module_dir))) matches Ok(modules)
                && forall|p: int|
                0 <= p < partitions.len() ==> {
                    &&& sourced_in(world, rules, modules, #[trigger] partitions[p])
                    &&& no_twins(world) ==> each_once(
                        modules,
                        partitions[p].sources,
                        modules.len() as int,
                    )
                }
        },
{
    let whole = partitions_found(rules, io);
    let request = Request::ListDir(rules.module_dir);
    let run = ask(io, request);
    match run.out {
        Outcome::Done(reply) => match listing_of(reply) {
            Ok(modules) => {
                let s = Search { rules, modules, next: 0, partitions: Seq::empty() };
                assert(whole == search(s, run.io));
                search_only_reads(s, run.io);
                lemma_truthful_ask(world, io, request, whole, module_queries());
                lemma_search_sound(world, s, run.io);
                assert(listing_of(world(request)) == Ok::<Seq<Entry<Text>>, Error<Text>>(modules));
            },
            Err(_) => {},
        },
        _ => {},
    }
}

} // verus!
