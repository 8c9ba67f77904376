//! Mounting overlays and taking them back step by step, together with the host.

use vstd::prelude::*;

use crate::bytes::{append, contains, copied, has_byte, is_utf8, join, lossy, same};
use crate::overlay::{
    colon_joined, leftovers_listed, leftovers_looked_at, leftovers_unmounted, lemma_place,
    lower_dirs, mounted_marker, names_partition, overlay_marked, overlay_options, overlay_steps,
    overlay_target, overlays_found, overlays_from, overlays_known, overlays_listed,
    overlays_mounted, overlays_ready, overlays_unmounted, own_dir, partitions_found, partitions_of,
    partitions_view, place, search, search_checked, search_dirs, search_listed, search_source,
    search_supported, sources_view, unmount_done, unmount_from, unmount_listed, unmount_looked_at,
    unmount_marked, with_source, Partition, PartitionView, Partitions, Search,
};
use crate::protocol::{
    done, entries_view, still_to_come, Entry, Error, FileKind, Io, Machine, Reply, ReplyView,
    Request, Run, Task, Turn,
};
use crate::rules::{
    is_partition_candidate, is_supported_partition, texts, ModuleCheck, Rules, SupportCheck,
};
use crate::script::{
    attempt, do_task, may_fail, must, must_succeed, perform_steps, steps_view, Script, Step,
};

verus! {

/// The place of the first partition with a name.
fn find_partition(partitions: &Vec<Partition>, name: &[u8]) -> (found: Option<usize>)
    ensures
        match found {
            Some(k) => k < partitions.len() && place(partitions_view(partitions@), name@) == Some(
                k as int,
            ),
            None => place(partitions_view(partitions@), name@) is None,
        },
{
    let ghost view = partitions_view(partitions@);
    let mut i: usize = 0;
    while i < partitions.len()
        invariant
            i <= partitions.len(),
            view == partitions_view(partitions@),
            forall|j: int| 0 <= j < i ==> (#[trigger] view[j]).name != name@,
        decreases partitions.len() - i,
    {
        assert(view[i as int] == partitions@[i as int]@);
        if same(partitions[i].name.as_slice(), name) {
            proof {
                lemma_place(view, name@);
            }
            return Some(i);
        }
        i += 1;
    }
    proof {
        lemma_place(view, name@);
    }
    None
}

/// Adds a module's directory for a partition behind those of earlier modules.
fn add_source(partitions: &mut Vec<Partition>, name: &[u8], module: Vec<u8>, path: Vec<u8>)
    ensures
        partitions_view(final(partitions)@) == with_source(
            partitions_view(old(partitions)@),
            name@,
            module@,
            path@,
        ),
{
    let ghost before = partitions_view(partitions@);
    match find_partition(partitions, name) {
        Some(k) => {
            let mut partition = partitions.remove(k);
            let ghost was = partition;
            partition.sources.push((module, path));
            proof {
                lemma_place(before, name@);
                assert(was@ == before[k as int]);
                assert(sources_view(partition.sources@) =~= was@.sources.push((module@, path@)));
            }
            partitions.insert(k, partition);
            assert(partitions_view(partitions@) =~= with_source(before, name@, module@, path@));
        },
        None => {
            let mut sources: Vec<(Vec<u8>, Vec<u8>)> = Vec::new();
            sources.push((module, path));
            assert(sources_view(sources@) =~= seq![(module@, path@)]);
            partitions.push(Partition { name: copied(name), sources });
            assert(partitions_view(partitions@) =~= with_source(before, name@, module@, path@));
        },
    }
}

/// The directories that an overlay is made of, the one that takes precedence first.
fn lower_dir_list(partition: &Partition) -> (list: Vec<Vec<u8>>)
    ensures
        texts(list@) == lower_dirs(partition@),
{
    let ghost all = lower_dirs(partition@);
    let mut list: Vec<Vec<u8>> = Vec::new();
    let n: usize = partition.sources.len();
    let mut i: usize = 0;
    while i < n
        invariant
            i <= n,
            n == partition.sources.len(),
            all == lower_dirs(partition@),
            texts(list@) =~= all.take(i as int),
        decreases n - i,
    {
        assert(partition@.sources[n - 1 - i] == (
            partition.sources@[n - 1 - i].0@,
            partition.sources@[n - 1 - i].1@,
        ));
        let ghost before = list@;
        let dir = lossy(partition.sources[n - 1 - i].1.as_slice());
        list.push(dir);
        assert(texts(list@) =~= texts(before).push(dir@));
        i += 1;
    }
    let ghost before = list@;
    let target = join("/".as_bytes(), partition.name.as_slice());
    let own = lossy(target.as_slice());
    list.push(own);
    assert(texts(list@) =~= texts(before).push(own@));
    assert(texts(list@) =~= all);
    list
}

/// The texts of a list with a colon between them.
fn join_with_colons(list: &Vec<Vec<u8>>) -> (text: Vec<u8>)
    ensures
        text@ == colon_joined(texts(list@)),
{
    let ghost all = texts(list@);
    let mut text: Vec<u8> = Vec::new();
    let mut i: usize = 0;
    while i < list.len()
        invariant
            i <= list.len(),
            all == texts(list@),
            text@ == colon_joined(all.take(i as int)),
        decreases list.len() - i,
    {
        proof {
            assert(all.take(i + 1).drop_last() =~= all.take(i as int));
            assert(all.take(i + 1).last() == list@[i as int]@);
        }
        if i > 0 {
            text.push(58);
        }
        append(&mut text, list[i].as_slice());
        assert(text@ =~= colon_joined(all.take(i + 1)));
        i += 1;
    }
    assert(all.take(list.len() as int) =~= all);
    text
}

/// A directory that the overlay of a partition needs for itself.
fn own_path(work_base: &[u8], name: &[u8], purpose: &[u8]) -> (path: Vec<u8>)
    ensures
        path@ == own_dir(work_base@, name@, purpose@),
{
    join(join(work_base, name).as_slice(), purpose)
}

/// The options of the overlay of a partition.
pub fn mount_options(work_base: &[u8], partition: &Partition) -> (options: Vec<u8>)
    ensures
        options@ == overlay_options(work_base@, partition@),
{
    let upper = own_path(work_base, partition.name.as_slice(), "upper".as_bytes());
    let work = own_path(work_base, partition.name.as_slice(), "work".as_bytes());
    let lower = join_with_colons(&lower_dir_list(partition));
    let mut options = copied("lowerdir=".as_bytes());
    append(&mut options, lower.as_slice());
    append(&mut options, ",upperdir=".as_bytes());
    append(&mut options, lossy(upper.as_slice()).as_slice());
    append(&mut options, ",workdir=".as_bytes());
    append(&mut options, lossy(work.as_slice()).as_slice());
    options
}

/// The file that tells that a partition has been mounted.
fn marker_path(name: &[u8]) -> (path: Vec<u8>)
    ensures
        path@ == mounted_marker(name@),
{
    join(join("/".as_bytes(), name).as_slice(), ".overlayfs_mounted".as_bytes())
}

/// The steps that mount the overlay of a partition.
fn overlay_list(work_base: &[u8], partition: &Partition) -> (steps: Vec<Step<Vec<u8>>>)
    ensures
        steps_view(steps@) == overlay_steps(work_base@, partition@),
{
    let name = partition.name.as_slice();
    let options = mount_options(work_base, partition);
    let mut steps: Vec<Step<Vec<u8>>> = Vec::new();
    steps.push(
        must_succeed(Request::EnsureDir(own_path(work_base, name, "upper".as_bytes()))),
    );
    steps.push(must_succeed(Request::EnsureDir(own_path(work_base, name, "work".as_bytes()))));
    if has_byte(options.as_slice(), 0) {
        steps.push(Step::Abort(Error::OptionsWithNul));
    } else {
        let target = join("/".as_bytes(), name);
        let task = Task::MountOverlay { partition: copied(name) };
        steps.push(do_task(task, Request::MountOverlay { target, options }));
    }
    steps.push(may_fail(Request::CreateFile(marker_path(name))));
    assert(steps_view(steps@) =~= overlay_steps(work_base@, partition@));
    steps
}

/// A way through the modules, at run time.
struct SearchProgress {
    rules: Rules,
    modules: Vec<Entry<Vec<u8>>>,
    next: usize,
    partitions: Vec<Partition>,
}

impl SearchProgress {
    spec fn view(self) -> Search {
        Search {
            rules: self.rules@,
            modules: entries_view(self.modules@),
            next: self.next as int,
            partitions: partitions_view(self.partitions@),
        }
    }

    /// The directory of the module that comes next.
    fn path(&self) -> (path: Vec<u8>)
        requires
            self.next < self.modules.len(),
        ensures
            path@ == self.view().path(),
    {
        assert(self.view().modules[self.next as int] == self.modules@[self.next as int]@);
        join(self.rules.module_dir.as_slice(), self.modules[self.next].name.as_slice())
    }
}

/// A list of partitions that is being put together.
pub struct Searching {
    progress: SearchProgress,
    stage: SearchStage,
}

enum SearchStage {
    /// The modules.
    Listing,
    /// Whether the module is to be mounted.
    Checking(ModuleCheck),
    /// The module's directories.
    DirListing,
    /// Whether a directory is that of a supported partition.
    Supporting(SupportCheck, Vec<Entry<Vec<u8>>>, usize),
    /// Whether it still is a directory.
    Source(Vec<Entry<Vec<u8>>>, usize),
}

impl Machine for Searching {
    type Value = Partitions;

    closed spec fn after(self, reply: ReplyView, io: Io) -> Run<Option<Seq<PartitionView>>> {
        let s = self.progress.view();
        match self.stage {
            SearchStage::Listing => partitions_of(s.rules, reply, io),
            SearchStage::Checking(check) => search_checked(s, check.after(reply, io)),
            SearchStage::DirListing => search_listed(s, done(io, reply)),
            SearchStage::Supporting(check, dirs, j) => search_supported(
                s,
                entries_view(dirs@),
                j as int,
                check.after(reply, io),
            ),
            SearchStage::Source(dirs, j) => search_source(
                s,
                entries_view(dirs@),
                j as int,
                done(io, reply),
            ),
        }
    }
}

/// Goes through the modules that are still to come.
#[verifier::loop_isolation(false)]
fn search_modules(progress: SearchProgress) -> (turn: Turn<Searching>)
    ensures
        forall|io: Io| #[trigger] turn.means(io) == search(progress.view(), io),
    decreases still_to_come(entries_view(progress.modules@), progress.next as int), 1nat,
{
    let ghost start = progress.view();
    let mut progress = progress;
    while progress.next < progress.modules.len()
        invariant
            forall|io: Io| #[trigger] search(start, io) == search(progress.view(), io),
            progress.view().left() <= start.left(),
        decreases progress.modules.len() - progress.next,
    {
        let ghost s = progress.view();
        let next: usize = progress.next;
        assert(s.modules[next as int] == progress.modules@[next as int]@);
        match progress.modules[next].kind {
            Err(id) => {
                let result: Turn<Searching> = Turn::Fail(Error::Failed(id));
                assert forall|io: Io| #[trigger] result.means(io) == search(s, io) by {
                    reveal(search);
                }
                return result;
            },
            Ok(FileKind::Dir) => {
                if is_utf8(progress.modules[next].name.as_slice()) {
                    let turn = progress.rules.check_module(progress.path().as_slice());
                    assert forall|io: Io| #[trigger]
                        search(s, io) == search_checked(s, turn.means(io)) by {
                        reveal(search);
                    }
                    return search_module(progress, turn);
                }
                let name = copied(progress.modules[next].name.as_slice());
                let result: Turn<Searching> = Turn::Fail(Error::ModuleName(name));
                assert forall|io: Io| #[trigger] result.means(io) == search(s, io) by {
                    reveal(search);
                }
                return result;
            },
            Ok(_) => {
                assert forall|io: Io| #[trigger] search(s, io) == search(s.passed(), io) by {
                    reveal(search);
                }
            },
        }
        progress.next = next + 1;
        assert(progress.view() == s.passed());
    }
    let ghost last = progress.view();
    let result: Turn<Searching> = if progress.partitions.len() == 0 {
        Turn::Done(Partitions(None))
    } else {
        Turn::Done(Partitions(Some(progress.partitions)))
    };
    assert forall|io: Io| #[trigger] result.means(io) == search(start, io) by {
        assert(search(start, io) == search(last, io));
        reveal(search);
    }
    result
}

/// The next module from the question on whether it is to be mounted.
fn search_module(progress: SearchProgress, turn: Turn<ModuleCheck>) -> (result: Turn<Searching>)
    requires
        progress.next < progress.modules.len(),
    ensures
        forall|io: Io| #[trigger]
            result.means(io) == search_checked(progress.view(), turn.means(io)),
    decreases still_to_come(entries_view(progress.modules@), progress.next as int), 0nat,
{
    let ghost s = progress.view();
    let ghost here = turn;
    match turn {
        Turn::Ask(request, check) => Turn::Ask(
            request,
            Searching { progress, stage: SearchStage::Checking(check) },
        ),
        Turn::Done(true) => {
            let request = Request::ListDir(progress.path());
            Turn::Ask(request, Searching { progress, stage: SearchStage::DirListing })
        },
        Turn::Done(false) => {
            let mut progress = progress;
            progress.next = progress.next + 1;
            assert(progress.view() == s.passed());
            assert forall|io: Io| #[trigger]
                search_checked(s, here.means(io)) == search(s.passed(), io) by {
                reveal(search);
            }
            search_modules(progress)
        },
        Turn::Fail(e) => Turn::Fail(e),
    }
}

/// Goes through the directories of the module from `j` on.
#[verifier::loop_isolation(false)]
fn search_rest(progress: SearchProgress, dirs: Vec<Entry<Vec<u8>>>, j: usize) -> (turn: Turn<
    Searching,
>)
    requires
        progress.next < progress.modules.len(),
    ensures
        forall|io: Io| #[trigger]
            turn.means(io) == search_dirs(
                progress.view(),
                entries_view(dirs@),
                j as int,
                io,
            ),
    decreases still_to_come(entries_view(dirs@), j as int), 1nat,
{
    let ghost s = progress.view();
    let ghost all = entries_view(dirs@);
    let mut i: usize = j;
    while i < dirs.len()
        invariant
            forall|io: Io| #[trigger]
                search_dirs(s, all, j as int, io) == search_dirs(s, all, i as int, io),
            j <= i,
        decreases dirs.len() - i,
    {
        assert(all[i as int] == dirs@[i as int]@);
        if is_partition_candidate(&dirs[i]) {
            let turn = is_supported_partition(&progress.rules, dirs[i].name.as_slice());
            assert forall|io: Io| #[trigger]
                search_dirs(s, all, i as int, io) == search_supported(
                    s,
                    all,
                    i as int,
                    turn.means(io),
                ) by {
                reveal(search_dirs);
            }
            return search_dir(progress, dirs, i, turn);
        }
        assert forall|io: Io| #[trigger]
            search_dirs(s, all, i as int, io) == search_dirs(s, all, i + 1, io) by {
            reveal(search_dirs);
        }
        i += 1;
    }
    let mut progress = progress;
    progress.next = progress.next + 1;
    assert(progress.view() == s.passed());
    assert forall|io: Io| #[trigger]
        search_dirs(s, all, j as int, io) == search(s.passed(), io) by {
        assert(search_dirs(s, all, j as int, io) == search_dirs(s, all, i as int, io));
        reveal(search_dirs);
        reveal(search);
    }
    search_modules(progress)
}

/// The next directory from the question on whether it is that of a supported partition.
fn search_dir(
    progress: SearchProgress,
    dirs: Vec<Entry<Vec<u8>>>,
    j: usize,
    turn: Turn<SupportCheck>,
) -> (result: Turn<Searching>)
    requires
        progress.next < progress.modules.len(),
        j < dirs.len(),
    ensures
        forall|io: Io| #[trigger]
            result.means(io) == search_supported(
                progress.view(),
                entries_view(dirs@),
                j as int,
                turn.means(io),
            ),
    decreases still_to_come(entries_view(dirs@), j as int), 0nat,
{
    let ghost s = progress.view();
    let ghost all = entries_view(dirs@);
    let ghost here = turn;
    match turn {
        Turn::Ask(request, check) => Turn::Ask(
            request,
            Searching { progress, stage: SearchStage::Supporting(check, dirs, j) },
        ),
        Turn::Done(true) => {
            assert(all[j as int] == dirs@[j as int]@);
            let request = Request::IsDir(
                join(progress.path().as_slice(), dirs[j].name.as_slice()),
            );
            Turn::Ask(request, Searching { progress, stage: SearchStage::Source(dirs, j) })
        },
        Turn::Done(false) => {
            assert forall|io: Io| #[trigger]
                search_supported(s, all, j as int, here.means(io)) == search_dirs(
                    s,
                    all,
                    j + 1,
                    io,
                ) by {
                reveal(search_dirs);
            }
            search_rest(progress, dirs, j + 1)
        },
        Turn::Fail(e) => Turn::Fail(e),
    }
}

/// Starts to list the directories that modules have for partitions.
pub fn collect_overlayfs_partitions(rules: Rules) -> (turn: Turn<Searching>)
    ensures
        forall|io: Io| #[trigger] turn.means(io) == partitions_found(rules@, io),
{
    let request = Request::ListDir(copied(rules.module_dir.as_slice()));
    let progress = SearchProgress {
        rules,
        modules: Vec::new(),
        next: 0,
        partitions: Vec::new(),
    };
    Turn::Ask(request, Searching { progress, stage: SearchStage::Listing })
}

impl Searching {
    /// Whether a pause is one that can be gone on from.
    #[verifier::type_invariant]
    spec fn in_range(self) -> bool {
        let in_module = self.progress.next < self.progress.modules.len();
        match self.stage {
            SearchStage::Listing => self.progress.next == 0 && self.progress.partitions@.len() == 0,
            SearchStage::Checking(_) => in_module,
            SearchStage::DirListing => in_module,
            SearchStage::Supporting(_, dirs, j) => in_module && j < dirs.len(),
            SearchStage::Source(dirs, j) => in_module && j < dirs.len(),
        }
    }

    /// Goes on with the host's reply.
    pub fn resume(self, reply: Reply) -> (turn: Turn<Searching>)
        ensures
            forall|io: Io| #[trigger] turn.means(io) == self.after(reply@, io),
    {
        proof {
            use_type_invariant(&self);
        }
        let mut progress = self.progress;
        let ghost s = progress.view();
        match self.stage {
            SearchStage::Listing => match reply.into_listing() {
                Ok(modules) => {
                    progress.modules = modules;
                    assert(partitions_view(progress.partitions@) =~= Seq::empty());
                    search_modules(progress)
                },
                Err(e) => Turn::Fail(e),
            },
            SearchStage::Checking(check) => search_module(progress, check.resume(reply)),
            SearchStage::DirListing => match reply.into_listing() {
                Ok(dirs) => {
                    assert forall|io: Io| true implies #[trigger] self.after(reply@, io)
                        == search_dirs(s, entries_view(dirs@), 0, io) by {
                        reveal(search_dirs);
                    }
                    search_rest(progress, dirs, 0)
                },
                Err(e) => Turn::Fail(e),
            },
            SearchStage::Supporting(check, dirs, j) => search_dir(
                progress,
                dirs,
                j,
                check.resume(reply),
            ),
            SearchStage::Source(dirs, j) => {
                let ghost all = entries_view(dirs@);
                assert(all[j as int] == dirs@[j as int]@);
                assert(s.modules[s.next] == progress.modules@[s.next]@);
                if reply.into_flag() {
                    let module = copied(progress.modules[progress.next].name.as_slice());
                    let path = join(progress.path().as_slice(), dirs[j].name.as_slice());
                    add_source(&mut progress.partitions, dirs[j].name.as_slice(), module, path);
                    assert(progress.view() == s.with(all[j as int].name));
                }
                assert forall|io: Io| true implies #[trigger] self.after(reply@, io)
                    == search_dirs(progress.view(), all, j + 1, io) by {
                    reveal(search_dirs);
                }
                search_rest(progress, dirs, j + 1)
            },
        }
    }
}

/// Overlays that are being mounted.
pub struct OverlayMounting {
    work_base: Vec<u8>,
    stage: OverlayStage,
}

enum OverlayStage {
    /// Whether the list of file systems exists.
    Known(Rules),
    /// The list of file systems.
    Supported(Rules),
    /// The modules' directories.
    Searching(Searching),
    /// Steps that have to succeed before the partitions from some place on.
    Steps(Script, Vec<Partition>, usize),
    /// Whether the device has a partition.
    Target(Vec<Partition>, usize),
    /// Whether a partition is mounted already.
    Marker(Vec<Partition>, usize),
}

impl Machine for OverlayMounting {
    type Value = ();

    closed spec fn after(self, reply: ReplyView, io: Io) -> Run<()> {
        let work_base = self.work_base@;
        match self.stage {
            OverlayStage::Known(rules) => overlays_listed(rules@, work_base, reply, io),
            OverlayStage::Supported(rules) => overlays_known(rules@, work_base, reply, io),
            OverlayStage::Searching(searching) => overlays_found(
                work_base,
                searching.after(reply, io),
            ),
            OverlayStage::Steps(script, partitions, i) => overlays_ready(
                work_base,
                partitions_view(partitions@),
                i as int,
                script.after(reply, io),
            ),
            OverlayStage::Target(partitions, i) => overlay_target(
                work_base,
                partitions_view(partitions@),
                i as int,
                reply,
                io,
            ),
            OverlayStage::Marker(partitions, i) => overlay_marked(
                work_base,
                partitions_view(partitions@),
                i as int,
                reply,
                io,
            ),
        }
    }
}

/// Mounts the overlays of the partitions from the `i`th one on.
fn mount_rest(work_base: Vec<u8>, partitions: Vec<Partition>, i: usize) -> (turn: Turn<
    OverlayMounting,
>)
    ensures
        forall|io: Io| #[trigger]
            turn.means(io) == overlays_from(
                work_base@,
                partitions_view(partitions@),
                i as int,
                io,
            ),
{
    reveal(overlays_from);
    if i < partitions.len() {
        assert(partitions_view(partitions@)[i as int] == partitions@[i as int]@);
        let request = Request::Exists(join("/".as_bytes(), partitions[i].name.as_slice()));
        Turn::Ask(
            request,
            OverlayMounting { work_base, stage: OverlayStage::Target(partitions, i) },
        )
    } else {
        Turn::Done(())
    }
}

/// The partitions from the `i`th one on, after steps that have to succeed.
fn mount_after(
    work_base: Vec<u8>,
    partitions: Vec<Partition>,
    i: usize,
    turn: Turn<Script>,
) -> (result: Turn<OverlayMounting>)
    ensures
        forall|io: Io| #[trigger]
            result.means(io) == overlays_ready(
                work_base@,
                partitions_view(partitions@),
                i as int,
                turn.means(io),
            ),
{
    let ghost here = turn;
    match turn {
        Turn::Ask(request, script) => Turn::Ask(
            request,
            OverlayMounting { work_base, stage: OverlayStage::Steps(script, partitions, i) },
        ),
        Turn::Done(_) => {
            assert forall|io: Io| #[trigger]
                overlays_ready(
                    work_base@,
                    partitions_view(partitions@),
                    i as int,
                    here.means(io),
                ) == overlays_from(work_base@, partitions_view(partitions@), i as int, io) by {
                reveal(overlays_from);
            }
            mount_rest(work_base, partitions, i)
        },
        Turn::Fail(e) => Turn::Fail(e),
    }
}

/// Overlays from where the modules' directories are listed.
fn mount_found(work_base: Vec<u8>, turn: Turn<Searching>) -> (result: Turn<OverlayMounting>)
    ensures
        forall|io: Io| #[trigger] result.means(io) == overlays_found(
            work_base@,
            turn.means(io),
        ),
{
    match turn {
        Turn::Ask(request, searching) => Turn::Ask(
            request,
            OverlayMounting { work_base, stage: OverlayStage::Searching(searching) },
        ),
        Turn::Done(Partitions(Some(partitions))) => {
            let mut steps: Vec<Step<Vec<u8>>> = Vec::new();
            steps.push(must_succeed(Request::EnsureDir(copied(work_base.as_slice()))));
            assert(steps_view(steps@) =~= seq![must(Request::EnsureDir(work_base@))]);
            mount_after(work_base, partitions, 0, perform_steps(steps))
        },
        Turn::Done(Partitions(None)) => Turn::Done(()),
        Turn::Fail(e) => Turn::Fail(e),
    }
}

/// Starts to mount an overlay over each partition that modules have directories for.
pub fn do_overlayfs_mount(rules: Rules, work_base: Vec<u8>) -> (turn: Turn<OverlayMounting>)
    ensures
        forall|io: Io| #[trigger]
            turn.means(io) == overlays_mounted(rules@, work_base@, io),
{
    Turn::Ask(
        Request::Exists(copied("/proc/filesystems".as_bytes())),
        OverlayMounting { work_base, stage: OverlayStage::Known(rules) },
    )
}

impl OverlayMounting {
    /// Whether a pause is one that can be gone on from.
    #[verifier::type_invariant]
    spec fn in_range(self) -> bool {
        match self.stage {
            OverlayStage::Target(partitions, i) => i < partitions.len(),
            OverlayStage::Marker(partitions, i) => i < partitions.len(),
            _ => true,
        }
    }

    /// Goes on with the host's reply.
    pub fn resume(self, reply: Reply) -> (turn: Turn<OverlayMounting>)
        ensures
            forall|io: Io| #[trigger] turn.means(io) == self.after(reply@, io),
    {
        proof {
            use_type_invariant(&self);
        }
        let work_base = self.work_base;
        match self.stage {
            OverlayStage::Known(rules) => {
                if reply.into_flag() {
                    Turn::Ask(
                        Request::ReadText(copied("/proc/filesystems".as_bytes())),
                        OverlayMounting { work_base, stage: OverlayStage::Supported(rules) },
                    )
                } else {
                    Turn::Fail(Error::NoOverlay)
                }
            },
            OverlayStage::Supported(rules) => {
                let known = match reply.into_data() {
                    Ok(text) => contains(text.as_slice(), "overlay".as_bytes()),
                    Err(_) => false,
                };
                if known {
                    mount_found(work_base, collect_overlayfs_partitions(rules))
                } else {
                    Turn::Fail(Error::NoOverlay)
                }
            },
            OverlayStage::Searching(searching) => mount_found(work_base, searching.resume(reply)),
            OverlayStage::Steps(script, partitions, i) => mount_after(
                work_base,
                partitions,
                i,
                script.resume(reply),
            ),
            OverlayStage::Target(partitions, i) => {
                assert(partitions_view(partitions@)[i as int] == partitions@[i as int]@);
                if reply.into_flag() {
                    let request = Request::Exists(marker_path(partitions[i].name.as_slice()));
                    Turn::Ask(
                        request,
                        OverlayMounting { work_base, stage: OverlayStage::Marker(partitions, i) },
                    )
                } else {
                    assert forall|io: Io| true implies #[trigger] self.after(reply@, io)
                        == overlays_from(
                        work_base@,
                        partitions_view(partitions@),
                        i + 1,
                        io,
                    ) by {
                        reveal(overlays_from);
                    }
                    mount_rest(work_base, partitions, i + 1)
                }
            },
            OverlayStage::Marker(partitions, i) => {
                assert(partitions_view(partitions@)[i as int] == partitions@[i as int]@);
                if reply.into_flag() {
                    assert forall|io: Io| true implies #[trigger] self.after(reply@, io)
                        == overlays_from(
                        work_base@,
                        partitions_view(partitions@),
                        i + 1,
                        io,
                    ) by {
                        reveal(overlays_from);
                    }
                    mount_rest(work_base, partitions, i + 1)
                } else {
                    let steps = overlay_list(work_base.as_slice(), &partitions[i]);
                    let turn = perform_steps(steps);
                    assert forall|io: Io| true implies #[trigger] self.after(reply@, io)
                        == overlays_ready(
                        work_base@,
                        partitions_view(partitions@),
                        i + 1,
                        turn.means(io),
                    ) by {
                        reveal(overlays_from);
                    }
                    mount_after(work_base, partitions, i + 1, turn)
                }
            },
        }
    }
}

/// Overlays that are being taken back.
pub struct OverlayUnmounting {
    work_base: Vec<u8>,
    stage: UnmountStage,
}

enum UnmountStage {
    /// Whether there is anything to take back, be it all overlays or those that are left.
    Looking(bool),
    /// The partitions, be it of all overlays or of those that are left.
    Listing(bool),
    /// Whether a partition was mounted, and whether all directories are to be removed in any case.
    Marker(Vec<Entry<Vec<u8>>>, usize, bool),
    /// The unmounting of a partition.
    Unmount(Vec<Entry<Vec<u8>>>, usize),
    /// The removal of its marker.
    RemoveMarker(Vec<Entry<Vec<u8>>>, usize),
    /// The last steps.
    Last(Script),
}

impl Machine for OverlayUnmounting {
    type Value = ();

    closed spec fn after(self, reply: ReplyView, io: Io) -> Run<()> {
        let work_base = self.work_base@;
        match self.stage {
            UnmountStage::Looking(all) => if all {
                unmount_looked_at(work_base, reply, io)
            } else {
                leftovers_looked_at(work_base, reply, io)
            },
            UnmountStage::Listing(all) => if all {
                unmount_listed(work_base, reply, io)
            } else {
                leftovers_listed(work_base, reply, io)
            },
            UnmountStage::Marker(entries, i, clear) => unmount_marked(
                work_base,
                entries_view(entries@),
                i as int,
                clear,
                reply,
                io,
            ),
            UnmountStage::Unmount(entries, i) => unmount_done(
                work_base,
                entries_view(entries@),
                i as int,
                reply,
                io,
            ),
            UnmountStage::RemoveMarker(entries, i) => unmount_from(
                work_base,
                entries_view(entries@),
                i + 1,
                true,
                io,
            ),
            UnmountStage::Last(script) => script.after(reply, io),
        }
    }
}

/// Whether an entry of the directory for overlays belongs to a partition.
fn is_partition_dir(entry: &Entry<Vec<u8>>) -> (yes: bool)
    ensures
        yes == names_partition(entry@),
{
    let is_dir = match entry.kind {
        Ok(FileKind::Dir) => true,
        _ => false,
    };
    is_dir && is_utf8(entry.name.as_slice())
}

/// The last steps of taking overlays back.
fn unmount_last(work_base: Vec<u8>, turn: Turn<Script>) -> (result: Turn<OverlayUnmounting>)
    ensures
        forall|io: Io| #[trigger] result.means(io) == turn.means(io),
{
    match turn {
        Turn::Ask(request, script) => Turn::Ask(
            request,
            OverlayUnmounting { work_base, stage: UnmountStage::Last(script) },
        ),
        Turn::Done(_) => Turn::Done(()),
        Turn::Fail(e) => Turn::Fail(e),
    }
}

/// Takes back the overlays from the entry at `i` on. In the end the directories that they needed
/// are removed if `clear` says so, or if there was an overlay to take back.
#[verifier::loop_isolation(false)]
fn unmount_rest(
    work_base: Vec<u8>,
    entries: Vec<Entry<Vec<u8>>>,
    i: usize,
    clear: bool,
) -> (turn: Turn<OverlayUnmounting>)
    ensures
        forall|io: Io| #[trigger]
            turn.means(io) == unmount_from(
                work_base@,
                entries_view(entries@),
                i as int,
                clear,
                io,
            ),
{
    let ghost all = entries_view(entries@);
    let mut j: usize = i;
    while j < entries.len()
        invariant
            forall|io: Io| #[trigger]
                unmount_from(work_base@, all, i as int, clear, io) == unmount_from(
                    work_base@,
                    all,
                    j as int,
                    clear,
                    io,
                ),
        decreases entries.len() - j,
    {
        assert(all[j as int] == entries@[j as int]@);
        if is_partition_dir(&entries[j]) {
            let request = Request::Exists(marker_path(entries[j].name.as_slice()));
            let result = Turn::Ask(
                request,
                OverlayUnmounting { work_base, stage: UnmountStage::Marker(entries, j, clear) },
            );
            assert forall|io: Io| #[trigger]
                result.means(io) == unmount_from(work_base@, all, i as int, clear, io) by {
                assert(unmount_from(work_base@, all, i as int, clear, io) == unmount_from(
                    work_base@,
                    all,
                    j as int,
                    clear,
                    io,
                ));
                reveal(unmount_from);
            }
            return result;
        }
        assert forall|io: Io| #[trigger]
            unmount_from(work_base@, all, j as int, clear, io) == unmount_from(
                work_base@,
                all,
                j + 1,
                clear,
                io,
            ) by {
            reveal(unmount_from);
        }
        j += 1;
    }
    let mut steps: Vec<Step<Vec<u8>>> = Vec::new();
    if clear {
        steps.push(may_fail(Request::RemoveTree(copied(work_base.as_slice()))));
    }
    assert(steps_view(steps@) =~= if clear {
        seq![attempt(Request::RemoveTree(work_base@))]
    } else {
        Seq::empty()
    });
    let turn = perform_steps(steps);
    assert forall|io: Io| #[trigger]
        unmount_from(work_base@, all, i as int, clear, io) == turn.means(io) by {
        assert(unmount_from(work_base@, all, i as int, clear, io) == unmount_from(
            work_base@,
            all,
            j as int,
            clear,
            io,
        ));
        reveal(unmount_from);
    }
    unmount_last(work_base, turn)
}

/// Starts to take back the overlays that were mounted.
pub fn unmount_overlayfs(work_base: Vec<u8>) -> (turn: Turn<OverlayUnmounting>)
    ensures
        forall|io: Io| #[trigger] turn.means(io) == overlays_unmounted(work_base@, io),
{
    let request = Request::Exists(copied(work_base.as_slice()));
    Turn::Ask(request, OverlayUnmounting { work_base, stage: UnmountStage::Looking(true) })
}

/// Starts to take back the overlays that are left from when modules were mounted that way.
pub fn unmount_leftovers(work_base: Vec<u8>) -> (turn: Turn<OverlayUnmounting>)
    ensures
        forall|io: Io| #[trigger] turn.means(io) == leftovers_unmounted(work_base@, io),
{
    let request = Request::Exists(copied(work_base.as_slice()));
    Turn::Ask(request, OverlayUnmounting { work_base, stage: UnmountStage::Looking(false) })
}

impl OverlayUnmounting {
    /// Whether a pause is one that can be gone on from.
    #[verifier::type_invariant]
    spec fn in_range(self) -> bool {
        match self.stage {
            UnmountStage::Marker(entries, i, _) => i < entries.len(),
            UnmountStage::Unmount(entries, i) => i < entries.len(),
            UnmountStage::RemoveMarker(entries, i) => i < entries.len(),
            _ => true,
        }
    }

    /// Goes on with the host's reply.
    pub fn resume(self, reply: Reply) -> (turn: Turn<OverlayUnmounting>)
        ensures
            forall|io: Io| #[trigger] turn.means(io) == self.after(reply@, io),
    {
        proof {
            use_type_invariant(&self);
        }
        let work_base = self.work_base;
        match self.stage {
            UnmountStage::Looking(all) => {
                if reply.into_flag() {
                    let request = Request::ListDir(copied(work_base.as_slice()));
                    Turn::Ask(
                        request,
                        OverlayUnmounting { work_base, stage: UnmountStage::Listing(all) },
                    )
                } else {
                    Turn::Done(())
                }
            },
            UnmountStage::Listing(all) => match reply.into_listing() {
                Ok(entries) => unmount_rest(work_base, entries, 0, all),
                Err(e) => if all {
                    Turn::Fail(e)
                } else {
                    Turn::Done(())
                },
            },
            UnmountStage::Marker(entries, i, clear) => {
                assert(entries_view(entries@)[i as int] == entries@[i as int]@);
                if reply.into_flag() {
                    let request = Request::Unmount(
                        join("/".as_bytes(), entries[i].name.as_slice()),
                    );
                    Turn::Ask(
                        request,
                        OverlayUnmounting { work_base, stage: UnmountStage::Unmount(entries, i) },
                    )
                } else {
                    assert forall|io: Io| true implies #[trigger] self.after(reply@, io)
                        == unmount_from(
                        work_base@,
                        entries_view(entries@),
                        i + 1,
                        clear,
                        io,
                    ) by {
                        reveal(unmount_from);
                    }
                    unmount_rest(work_base, entries, i + 1, clear)
                }
            },
            UnmountStage::Unmount(entries, i) => {
                assert(entries_view(entries@)[i as int] == entries@[i as int]@);
                match reply.into_done() {
                    Ok(_) => {
                        let request = Request::RemoveFile(
                            marker_path(entries[i].name.as_slice()),
                        );
                        let result = Turn::Ask(
                            request,
                            OverlayUnmounting {
                                work_base,
                                stage: UnmountStage::RemoveMarker(entries, i),
                            },
                        );
                        assert forall|io: Io| #[trigger]
                            result.means(io) == self.after(reply@, io) by {
                            reveal(unmount_from);
                        }
                        result
                    },
                    Err(_) => {
                        assert forall|io: Io| true implies #[trigger] self.after(reply@, io)
                            == unmount_from(
                            work_base@,
                            entries_view(entries@),
                            i + 1,
                            true,
                            io,
                        ) by {
                            reveal(unmount_from);
                        }
                        unmount_rest(work_base, entries, i + 1, true)
                    },
                }
            },
            UnmountStage::RemoveMarker(entries, i) => unmount_rest(
                work_base,
                entries,
                i + 1,
                true,
            ),
            UnmountStage::Last(script) => unmount_last(work_base, script.resume(reply)),
        }
    }
}

} // verus!
