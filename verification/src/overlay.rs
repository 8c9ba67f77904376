//! Mounting modules with the overlay file system, and taking those mounts back.

use vstd::prelude::*;
#[allow(unused_imports)]
use vstd::string::StringSliceAdditionalSpecFns;
use vstd::utf8::valid_utf8;

use crate::bytes::{joined, lossy_text, occurs_in};
use crate::protocol::{
    ask, data_of, done, done_of, fail, flag_of, listing_of, still_to_come, waiting, Entry, Error,
    FileKind, Io, Outcome, ReplyView, Request, Run, Task, Text,
};
use crate::rules::{device_dir, may_be_partition, supported, takes_part, RulesView};
use crate::script::{attempt, must, perform, task, Step};

verus! {

/// A partition with the directories that modules have for it, in the order of the modules.
#[derive(Debug, PartialEq, Eq)]
pub struct Partition {
    pub name: Vec<u8>,
    /// The name of each module and the path of its directory.
    pub sources: Vec<(Vec<u8>, Vec<u8>)>,
}

/// A partition in specifications.
pub struct PartitionView {
    pub name: Text,
    pub sources: Seq<(Text, Text)>,
}

/// The views of a list of sources.
pub open spec fn sources_view(sources: Seq<(Vec<u8>, Vec<u8>)>) -> Seq<(Text, Text)> {
    sources.map_values(|s: (Vec<u8>, Vec<u8>)| (s.0@, s.1@))
}

impl View for Partition {
    type V = PartitionView;

    open spec fn view(&self) -> PartitionView {
        PartitionView { name: self.name@, sources: sources_view(self.sources@) }
    }
}

/// The views of a list of partitions.
pub open spec fn partitions_view(partitions: Seq<Partition>) -> Seq<PartitionView> {
    partitions.map_values(|p: Partition| p@)
}

/// Partitions, if there are any.
#[derive(Debug, PartialEq, Eq)]
pub struct Partitions(pub Option<Vec<Partition>>);

impl View for Partitions {
    type V = Option<Seq<PartitionView>>;

    open spec fn view(&self) -> Option<Seq<PartitionView>> {
        match self.0 {
            Some(list) => Some(partitions_view(list@)),
            None => None,
        }
    }
}

/// The place of the first partition with a name.
pub open spec fn place(partitions: Seq<PartitionView>, name: Text) -> Option<int>
    decreases partitions.len(),
{
    if partitions.len() == 0 {
        None
    } else if partitions[0].name == name {
        Some(0)
    } else {
        match place(partitions.drop_first(), name) {
            Some(k) => Some(k + 1),
            None => None,
        }
    }
}

/// Adds a module's directory for a partition behind those of earlier modules.
pub open spec fn with_source(
    partitions: Seq<PartitionView>,
    name: Text,
    module: Text,
    path: Text,
) -> Seq<PartitionView> {
    match place(partitions, name) {
        Some(k) => partitions.update(
            k,
            PartitionView { name, sources: partitions[k].sources.push((module, path)) },
        ),
        None => partitions.push(PartitionView { name, sources: seq![(module, path)] }),
    }
}

/// A way through the modules.
pub struct Search {
    pub rules: RulesView,
    pub modules: Seq<Entry<Text>>,
    pub next: int,
    pub partitions: Seq<PartitionView>,
}

impl Search {
    /// The name of the module that comes next.
    pub open spec fn module(self) -> Text {
        self.modules[self.next].name
    }

    /// The directory of the module that comes next.
    pub open spec fn path(self) -> Text {
        joined(self.rules.module_dir, self.module())
    }

    /// The module that comes next has been dealt with.
    pub open spec fn passed(self) -> Search {
        Search { next: self.next + 1, ..self }
    }

    /// The number of modules that are still to come.
    pub open spec fn left(self) -> nat {
        still_to_come(self.modules, self.next)
    }

    /// The module that comes next has a directory for the partition.
    pub open spec fn with(self, name: Text) -> Search {
        Search {
            partitions: with_source(
                self.partitions,
                name,
                self.module(),
                joined(self.path(), name),
            ),
            ..self
        }
    }
}

/// Lists the directories that modules have for partitions.
pub open spec fn partitions_found(rules: RulesView, io: Io) -> Run<Option<Seq<PartitionView>>> {
    let run = ask(io, Request::ListDir(rules.module_dir));
    match run.out {
        Outcome::Done(reply) => partitions_of(rules, reply, run.io),
        Outcome::Fail(e) => fail(run.io, e),
        Outcome::Waiting => waiting(run.io),
    }
}

/// Goes on when the modules are known.
pub open spec fn partitions_of(rules: RulesView, reply: ReplyView, io: Io) -> Run<
    Option<Seq<PartitionView>>,
> {
    match listing_of(reply) {
        Ok(modules) => search(Search { rules, modules, next: 0, partitions: Seq::empty() }, io),
        Err(e) => fail(io, e),
    }
}

/// Goes through the modules that are still to come.
#[verifier::opaque]
pub open spec fn search(s: Search, io: Io) -> Run<Option<Seq<PartitionView>>>
    decreases s.left(), 10nat, 0nat,
{
    if s.next < 0 || s.next >= s.modules.len() {
        done(
            io,
            if s.partitions.len() == 0 {
                None
            } else {
                Some(s.partitions)
            },
        )
    } else {
        match s.modules[s.next].kind {
            Err(id) => fail(io, Error::Failed(id)),
            Ok(FileKind::Dir) => if valid_utf8(s.module()) {
                search_checked(s, takes_part(s.rules, s.path(), io))
            } else {
                fail(io, Error::ModuleName(s.module()))
            },
            Ok(_) => search(s.passed(), io),
        }
    }
}

/// Goes on when it is known whether the module is to be mounted.
pub open spec fn search_checked(s: Search, run: Run<bool>) -> Run<Option<Seq<PartitionView>>>
    decreases s.left(), 9nat, 0nat,
{
    if s.next < 0 || s.next >= s.modules.len() {
        waiting(run.io)
    } else {
        match run.out {
            Outcome::Done(true) => search_listed(s, ask(run.io, Request::ListDir(s.path()))),
            Outcome::Done(false) => search(s.passed(), run.io),
            Outcome::Fail(e) => fail(run.io, e),
            Outcome::Waiting => waiting(run.io),
        }
    }
}

/// Goes on when the directories of the module are known.
pub open spec fn search_listed(s: Search, run: Run<ReplyView>) -> Run<Option<Seq<PartitionView>>>
    decreases s.left(), 8nat, 0nat,
{
    match run.out {
        Outcome::Done(reply) => match listing_of(reply) {
            Ok(dirs) => search_dirs(s, dirs, 0, run.io),
            Err(e) => fail(run.io, e),
        },
        Outcome::Fail(e) => fail(run.io, e),
        Outcome::Waiting => waiting(run.io),
    }
}

/// Goes through the directories of the module from `j` on.
#[verifier::opaque]
pub open spec fn search_dirs(s: Search, dirs: Seq<Entry<Text>>, j: int, io: Io) -> Run<
    Option<Seq<PartitionView>>,
>
    decreases s.left(), 7nat, 3 * still_to_come(dirs, j),
{
    if s.next < 0 || s.next >= s.modules.len() {
        waiting(io)
    } else if j < 0 || j >= dirs.len() {
        search(s.passed(), io)
    } else if may_be_partition(dirs[j]) {
        search_supported(s, dirs, j, supported(s.rules, dirs[j].name, io))
    } else {
        search_dirs(s, dirs, j + 1, io)
    }
}

/// Goes on when it is known whether the directory is that of a supported partition.
pub open spec fn search_supported(
    s: Search,
    dirs: Seq<Entry<Text>>,
    j: int,
    run: Run<bool>,
) -> Run<Option<Seq<PartitionView>>>
    decreases s.left(), 7nat, 3 * still_to_come(dirs, j) - 1,
{
    if j < 0 || j >= dirs.len() {
        waiting(run.io)
    } else {
        match run.out {
            Outcome::Done(true) => search_source(
                s,
                dirs,
                j,
                ask(run.io, Request::IsDir(joined(s.path(), dirs[j].name))),
            ),
            Outcome::Done(false) => search_dirs(s, dirs, j + 1, run.io),
            Outcome::Fail(e) => fail(run.io, e),
            Outcome::Waiting => waiting(run.io),
        }
    }
}

/// Goes on when it is known whether the directory still is one.
pub open spec fn search_source(
    s: Search,
    dirs: Seq<Entry<Text>>,
    j: int,
    run: Run<ReplyView>,
) -> Run<Option<Seq<PartitionView>>>
    decreases s.left(), 7nat, 3 * still_to_come(dirs, j) - 2,
{
    if j < 0 || j >= dirs.len() {
        waiting(run.io)
    } else {
        match run.out {
            Outcome::Done(reply) => if flag_of(reply) {
                search_dirs(s.with(dirs[j].name), dirs, j + 1, run.io)
            } else {
                search_dirs(s, dirs, j + 1, run.io)
            },
            Outcome::Fail(e) => fail(run.io, e),
            Outcome::Waiting => waiting(run.io),
        }
    }
}

/// The directories that an overlay is made of, the one that takes precedence first: those of the
/// modules from the last to the first, and then the device's own.
pub open spec fn lower_dirs(partition: PartitionView) -> Seq<Text> {
    Seq::new(
        partition.sources.len() + 1,
        |i: int|
            if i < partition.sources.len() {
                lossy_text(partition.sources[partition.sources.len() - 1 - i].1)
            } else {
                lossy_text(device_dir(partition.name))
            },
    )
}

/// The texts of a list with a colon between them.
pub open spec fn colon_joined(list: Seq<Text>) -> Text
    decreases list.len(),
{
    if list.len() == 0 {
        Seq::empty()
    } else if list.len() == 1 {
        list[0]
    } else {
        colon_joined(list.drop_last()).push(58) + list.last()
    }
}

/// A directory that the overlay of a partition needs for itself.
pub open spec fn own_dir(work_base: Text, name: Text, purpose: Text) -> Text {
    joined(joined(work_base, name), purpose)
}

/// The options of the overlay of a partition.
pub open spec fn overlay_options(work_base: Text, partition: PartitionView) -> Text {
    let upper = own_dir(work_base, partition.name, "upper".spec_bytes());
    let work = own_dir(work_base, partition.name, "work".spec_bytes());
    "lowerdir=".spec_bytes() + colon_joined(lower_dirs(partition)) + ",upperdir=".spec_bytes()
        + lossy_text(upper) + ",workdir=".spec_bytes() + lossy_text(work)
}

/// The file that tells that a partition has been mounted.
pub open spec fn mounted_marker(name: Text) -> Text {
    joined(device_dir(name), ".overlayfs_mounted".spec_bytes())
}

/// The steps that mount the overlay of a partition.
pub open spec fn overlay_steps(work_base: Text, partition: PartitionView) -> Seq<Step<Text>> {
    let options = overlay_options(work_base, partition);
    seq![
        must(Request::EnsureDir(own_dir(work_base, partition.name, "upper".spec_bytes()))),
        must(Request::EnsureDir(own_dir(work_base, partition.name, "work".spec_bytes()))),
        if options.contains(0) {
            Step::Abort(Error::OptionsWithNul)
        } else {
            task(
                Task::MountOverlay { partition: partition.name },
                Request::MountOverlay { target: device_dir(partition.name), options },
            )
        },
        attempt(Request::CreateFile(mounted_marker(partition.name))),
    ]
}

/// Whether the list of file systems that the kernel knows names the overlay file system.
pub open spec fn knows_overlay(reply: ReplyView) -> bool {
    match data_of(reply) {
        Ok(text) => occurs_in("overlay".spec_bytes(), text),
        Err(_) => false,
    }
}

/// Mounts an overlay over each partition that modules have directories for.
pub open spec fn overlays_mounted(rules: RulesView, work_base: Text, io: Io) -> Run<()> {
    let run = ask(io, Request::Exists("/proc/filesystems".spec_bytes()));
    match run.out {
        Outcome::Done(reply) => overlays_listed(rules, work_base, reply, run.io),
        Outcome::Fail(e) => fail(run.io, e),
        Outcome::Waiting => waiting(run.io),
    }
}

/// Goes on when it is known whether the list of file systems exists.
pub open spec fn overlays_listed(
    rules: RulesView,
    work_base: Text,
    reply: ReplyView,
    io: Io,
) -> Run<()> {
    if flag_of(reply) {
        let run = ask(io, Request::ReadText("/proc/filesystems".spec_bytes()));
        match run.out {
            Outcome::Done(reply) => overlays_known(rules, work_base, reply, run.io),
            Outcome::Fail(e) => fail(run.io, e),
            Outcome::Waiting => waiting(run.io),
        }
    } else {
        fail(io, Error::NoOverlay)
    }
}

/// Goes on when the list of file systems has been read.
pub open spec fn overlays_known(
    rules: RulesView,
    work_base: Text,
    reply: ReplyView,
    io: Io,
) -> Run<()> {
    if knows_overlay(reply) {
        overlays_found(work_base, partitions_found(rules, io))
    } else {
        fail(io, Error::NoOverlay)
    }
}

/// Goes on when the modules' directories are known.
pub open spec fn overlays_found(work_base: Text, run: Run<Option<Seq<PartitionView>>>) -> Run<()> {
    match run.out {
        Outcome::Done(Some(partitions)) => overlays_ready(
            work_base,
            partitions,
            0,
            perform(seq![must(Request::EnsureDir(work_base))], run.io),
        ),
        Outcome::Done(None) => done(run.io, ()),
        Outcome::Fail(e) => fail(run.io, e),
        Outcome::Waiting => waiting(run.io),
    }
}

/// Goes on with the partitions from `i` on when what comes before has succeeded.
pub open spec fn overlays_ready(
    work_base: Text,
    partitions: Seq<PartitionView>,
    i: int,
    run: Run<()>,
) -> Run<()>
    decreases partitions.len() - i, 3nat,
{
    match run.out {
        Outcome::Done(_) => overlays_from(work_base, partitions, i, run.io),
        Outcome::Fail(e) => fail(run.io, e),
        Outcome::Waiting => waiting(run.io),
    }
}

/// Mounts an overlay over each partition from the `i`th one on, unless the device does not have it
/// or it is mounted already.
#[verifier::opaque]
pub open spec fn overlays_from(
    work_base: Text,
    partitions: Seq<PartitionView>,
    i: int,
    io: Io,
) -> Run<()>
    decreases partitions.len() - i, 2nat,
{
    if i < 0 || i >= partitions.len() {
        done(io, ())
    } else {
        let run = ask(io, Request::Exists(device_dir(partitions[i].name)));
        match run.out {
            Outcome::Done(reply) => overlay_target(work_base, partitions, i, reply, run.io),
            Outcome::Fail(e) => fail(run.io, e),
            Outcome::Waiting => waiting(run.io),
        }
    }
}

/// Goes on when it is known whether the device has the partition.
pub open spec fn overlay_target(
    work_base: Text,
    partitions: Seq<PartitionView>,
    i: int,
    reply: ReplyView,
    io: Io,
) -> Run<()>
    decreases partitions.len() - i, 1nat,
{
    if i < 0 || i >= partitions.len() {
        done(io, ())
    } else if flag_of(reply) {
        let run = ask(io, Request::Exists(mounted_marker(partitions[i].name)));
        match run.out {
            Outcome::Done(reply) => overlay_marked(work_base, partitions, i, reply, run.io),
            Outcome::Fail(e) => fail(run.io, e),
            Outcome::Waiting => waiting(run.io),
        }
    } else {
        overlays_from(work_base, partitions, i + 1, io)
    }
}

/// Goes on when it is known whether the partition is mounted already.
pub open spec fn overlay_marked(
    work_base: Text,
    partitions: Seq<PartitionView>,
    i: int,
    reply: ReplyView,
    io: Io,
) -> Run<()>
    decreases partitions.len() - i, 0nat,
{
    if i < 0 || i >= partitions.len() {
        done(io, ())
    } else if flag_of(reply) {
        overlays_from(work_base, partitions, i + 1, io)
    } else {
        overlays_ready(
            work_base,
            partitions,
            i + 1,
            perform(overlay_steps(work_base, partitions[i]), io),
        )
    }
}

/// Takes back the overlays that were mounted, and removes the directories that they needed.
pub open spec fn overlays_unmounted(work_base: Text, io: Io) -> Run<()> {
    let run = ask(io, Request::Exists(work_base));
    match run.out {
        Outcome::Done(reply) => unmount_looked_at(work_base, reply, run.io),
        Outcome::Fail(e) => fail(run.io, e),
        Outcome::Waiting => waiting(run.io),
    }
}

/// Goes on when it is known whether there is anything to take back.
pub open spec fn unmount_looked_at(work_base: Text, reply: ReplyView, io: Io) -> Run<()> {
    if flag_of(reply) {
        let run = ask(io, Request::ListDir(work_base));
        match run.out {
            Outcome::Done(reply) => unmount_listed(work_base, reply, run.io),
            Outcome::Fail(e) => fail(run.io, e),
            Outcome::Waiting => waiting(run.io),
        }
    } else {
        done(io, ())
    }
}

/// Goes on when the partitions are known.
pub open spec fn unmount_listed(work_base: Text, reply: ReplyView, io: Io) -> Run<()> {
    match listing_of(reply) {
        Ok(entries) => unmount_from(work_base, entries, 0, true, io),
        Err(e) => fail(io, e),
    }
}

/// Takes back the overlays that are left from when modules were mounted that way. Without any,
/// nothing is changed.
pub open spec fn leftovers_unmounted(work_base: Text, io: Io) -> Run<()> {
    let run = ask(io, Request::Exists(work_base));
    match run.out {
        Outcome::Done(reply) => leftovers_looked_at(work_base, reply, run.io),
        Outcome::Fail(e) => fail(run.io, e),
        Outcome::Waiting => waiting(run.io),
    }
}

/// Goes on when it is known whether anything can be left.
pub open spec fn leftovers_looked_at(work_base: Text, reply: ReplyView, io: Io) -> Run<()> {
    if flag_of(reply) {
        let run = ask(io, Request::ListDir(work_base));
        match run.out {
            Outcome::Done(reply) => leftovers_listed(work_base, reply, run.io),
            Outcome::Fail(e) => fail(run.io, e),
            Outcome::Waiting => waiting(run.io),
        }
    } else {
        done(io, ())
    }
}

/// Goes on when the partitions that can be left are known. If they cannot be known, none are.
pub open spec fn leftovers_listed(work_base: Text, reply: ReplyView, io: Io) -> Run<()> {
    match listing_of(reply) {
        Ok(entries) => unmount_from(work_base, entries, 0, false, io),
        Err(_) => done(io, ()),
    }
}

/// Whether an entry of the directory for overlays belongs to a partition.
pub open spec fn names_partition(entry: Entry<Text>) -> bool {
    entry.kind == Ok::<FileKind, u64>(FileKind::Dir) && valid_utf8(entry.name)
}

/// Takes back the overlays from the `i`th entry on. In the end the directories that they needed are
/// removed if `clear` says so, or if there was an overlay to take back.
#[verifier::opaque]
pub open spec fn unmount_from(
    work_base: Text,
    entries: Seq<Entry<Text>>,
    i: int,
    clear: bool,
    io: Io,
) -> Run<()>
    decreases still_to_come(entries, i), 3nat,
{
    if i < 0 || i >= entries.len() {
        if clear {
            perform(seq![attempt(Request::RemoveTree(work_base))], io)
        } else {
            done(io, ())
        }
    } else if names_partition(entries[i]) {
        let run = ask(io, Request::Exists(mounted_marker(entries[i].name)));
        match run.out {
            Outcome::Done(reply) => unmount_marked(work_base, entries, i, clear, reply, run.io),
            Outcome::Fail(e) => fail(run.io, e),
            Outcome::Waiting => waiting(run.io),
        }
    } else {
        unmount_from(work_base, entries, i + 1, clear, io)
    }
}

/// Goes on when it is known whether the partition was mounted.
pub open spec fn unmount_marked(
    work_base: Text,
    entries: Seq<Entry<Text>>,
    i: int,
    clear: bool,
    reply: ReplyView,
    io: Io,
) -> Run<()>
    decreases still_to_come(entries, i), 2nat,
{
    if i < 0 || i >= entries.len() {
        done(io, ())
    } else if flag_of(reply) {
        let run = ask(io, Request::Unmount(device_dir(entries[i].name)));
        match run.out {
            Outcome::Done(reply) => unmount_done(work_base, entries, i, reply, run.io),
            Outcome::Fail(e) => fail(run.io, e),
            Outcome::Waiting => waiting(run.io),
        }
    } else {
        unmount_from(work_base, entries, i + 1, clear, io)
    }
}

/// Goes on when the partition has been unmounted, or could not be: only then the marker stays.
pub open spec fn unmount_done(
    work_base: Text,
    entries: Seq<Entry<Text>>,
    i: int,
    reply: ReplyView,
    io: Io,
) -> Run<()>
    decreases still_to_come(entries, i), 1nat,
{
    if i < 0 || i >= entries.len() {
        done(io, ())
    } else if done_of(reply) is Ok {
        let run = ask(io, Request::RemoveFile(mounted_marker(entries[i].name)));
        match run.out {
            Outcome::Done(_) => unmount_from(work_base, entries, i + 1, true, run.io),
            Outcome::Fail(e) => fail(run.io, e),
            Outcome::Waiting => waiting(run.io),
        }
    } else {
        unmount_from(work_base, entries, i + 1, true, io)
    }
}

/// What the place of a name means.
pub proof fn lemma_place(partitions: Seq<PartitionView>, name: Text)
    ensures
        match place(partitions, name) {
            Some(k) => {
                &&& 0 <= k < partitions.len()
                &&& partitions[k].name == name
                &&& forall|j: int| 0 <= j < k ==> (#[trigger] partitions[j]).name != name
            },
            None => forall|j: int|
                0 <= j < partitions.len() ==> (#[trigger] partitions[j]).name != name,
        },
    decreases partitions.len(),
{
    if partitions.len() > 0 && partitions[0].name != name {
        let rest = partitions.drop_first();
        lemma_place(rest, name);
        assert forall|j: int| 0 < j < partitions.len() implies partitions[j] == rest[j - 1] by {}
        match place(rest, name) {
            Some(k) => {
                assert forall|j: int| 0 <= j < k + 1 implies (#[trigger] partitions[j]).name
                    != name by {
                    if j > 0 {
                        assert(partitions[j] == rest[j - 1]);
                    }
                }
            },
            None => {
                assert forall|j: int| 0 <= j < partitions.len() implies (
                #[trigger] partitions[j]).name != name by {
                    if j > 0 {
                        assert(partitions[j] == rest[j - 1]);
                    }
                }
            },
        }
    }
}

} // verus!
