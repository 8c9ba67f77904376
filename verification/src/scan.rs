//! Collecting the files of all modules into one tree.

use vstd::prelude::*;
#[allow(unused_imports)]
use vstd::string::StringSliceAdditionalSpecFns;
use vstd::utf8::valid_utf8;

use crate::bytes::{copied, is_utf8, join, joined, same};
use crate::collect::{collected, Collecting};
use crate::node::{
    absorb, absorbed, find, lemma_children_view, nodes_view, position, put, replaced, root_node,
    MaybeNode, Node, NodeView,
};
use crate::protocol::{
    ask, done, entries_view, fail, flag_of, listing_of, still_to_come, waiting, Entry, Error,
    FileKind, Io, Machine, Outcome, Reply, ReplyView, Request, Run, Text, Turn,
};
use crate::rules::{
    device_dir, is_partition_candidate, is_supported_partition, may_be_partition, supported,
    takes_part, ModuleCheck, Rules, RulesView, SupportCheck,
};

verus! {

/// What has been found so far: the files for the partitions at the root, those for the system
/// partition, and whether there is anything to mount.
pub struct Found {
    pub root: NodeView,
    pub system: NodeView,
    pub any: bool,
}

/// Nothing has been found.
pub open spec fn nothing_found() -> Found {
    Found {
        root: root_node("".spec_bytes()),
        system: root_node("system".spec_bytes()),
        any: false,
    }
}

/// A way through the modules.
pub struct Scan {
    pub rules: RulesView,
    pub modules: Seq<Entry<Text>>,
    pub next: int,
    pub found: Found,
}

impl Scan {
    /// The directory of the module that comes next.
    pub open spec fn path(self) -> Text {
        joined(self.rules.module_dir, self.modules[self.next].name)
    }

    /// The module that comes next has been dealt with.
    pub open spec fn passed(self) -> Scan {
        Scan { next: self.next + 1, ..self }
    }

    /// The number of modules that are still to come.
    pub open spec fn left(self) -> nat {
        still_to_come(self.modules, self.next)
    }

    /// The files for the system partition are these.
    pub open spec fn with_system(self, system: NodeView) -> Scan {
        Scan { found: Found { system, ..self.found }, ..self }
    }
}

/// A way through the directories of one module, and whether it has had anything to mount.
pub struct Dirs {
    pub dirs: Seq<Entry<Text>>,
    pub next: int,
    pub has_file: bool,
}

impl Dirs {
    /// The name of the directory that comes next.
    pub open spec fn name(self) -> Text {
        self.dirs[self.next].name
    }

    /// The directory that comes next has been dealt with.
    pub open spec fn passed(self, has_file: bool) -> Dirs {
        Dirs { next: self.next + 1, has_file: self.has_file || has_file, ..self }
    }

    /// The number of directories that are still to come.
    pub open spec fn left(self) -> nat {
        still_to_come(self.dirs, self.next)
    }
}

/// Whether an entry of a module's directory can be the directory of a partition other than the
/// system partition.
pub open spec fn may_be_other_partition(entry: Entry<Text>) -> bool {
    may_be_partition(entry) && entry.name != "system".spec_bytes()
}

/// Adds the files for a partition, if there are any.
pub open spec fn with_partition(found: Found, node: NodeView, has_file: bool) -> Found {
    if has_file {
        Found {
            root: NodeView { children: absorbed(found.root.children, node), ..found.root },
            ..found
        }
    } else {
        found
    }
}

/// Collects the files of all modules. There is no tree if there is nothing to mount.
pub open spec fn scanned(rules: RulesView, io: Io) -> Run<Option<NodeView>> {
    let run = ask(io, Request::ListDir(rules.module_dir));
    match run.out {
        Outcome::Done(reply) => scanned_of(rules, reply, run.io),
        Outcome::Fail(e) => fail(run.io, e),
        Outcome::Waiting => waiting(run.io),
    }
}

/// Goes on when the modules are known.
pub open spec fn scanned_of(rules: RulesView, reply: ReplyView, io: Io) -> Run<Option<NodeView>> {
    match listing_of(reply) {
        Ok(modules) => scan_from(Scan { rules, modules, next: 0, found: nothing_found() }, io),
        Err(e) => fail(io, e),
    }
}

/// Goes through the modules that are still to come.
#[verifier::opaque]
pub open spec fn scan_from(scan: Scan, io: Io) -> Run<Option<NodeView>>
    decreases scan.left(), 10nat, 0nat,
{
    if scan.next < 0 || scan.next >= scan.modules.len() {
        finished(scan.found, io)
    } else {
        match scan.modules[scan.next].kind {
            Err(id) => fail(io, Error::Failed(id)),
            Ok(FileKind::Dir) => if valid_utf8(scan.modules[scan.next].name) {
                scan_checked(scan, takes_part(scan.rules, scan.path(), io))
            } else {
                fail(io, Error::ModuleName(scan.modules[scan.next].name))
            },
            Ok(_) => scan_from(scan.passed(), io),
        }
    }
}

/// Goes on when it is known whether the module is to be mounted.
pub open spec fn scan_checked(scan: Scan, run: Run<bool>) -> Run<Option<NodeView>>
    decreases scan.left(), 9nat, 0nat,
{
    if scan.next < 0 || scan.next >= scan.modules.len() {
        waiting(run.io)
    } else {
        match run.out {
            Outcome::Done(true) => scan_looked_at(
                scan,
                ask(run.io, Request::IsDir(joined(scan.path(), "system".spec_bytes()))),
            ),
            Outcome::Done(false) => scan_from(scan.passed(), run.io),
            Outcome::Fail(e) => fail(run.io, e),
            Outcome::Waiting => waiting(run.io),
        }
    }
}

/// Goes on when it is known whether the module has files for the system partition.
pub open spec fn scan_looked_at(scan: Scan, run: Run<ReplyView>) -> Run<Option<NodeView>>
    decreases scan.left(), 8nat, 0nat,
{
    match run.out {
        Outcome::Done(reply) => if flag_of(reply) {
            scan_collected(
                scan,
                collected(
                    scan.found.system,
                    joined(scan.path(), "system".spec_bytes()),
                    run.io,
                ),
            )
        } else {
            scan_collected(scan, done(run.io, (scan.found.system, false)))
        },
        Outcome::Fail(e) => fail(run.io, e),
        Outcome::Waiting => waiting(run.io),
    }
}

/// Goes on when the files for the system partition have been collected.
pub open spec fn scan_collected(scan: Scan, run: Run<(NodeView, bool)>) -> Run<Option<NodeView>>
    decreases scan.left(), 7nat, 0nat,
{
    match run.out {
        Outcome::Done(filled) => scan_listed(
            scan.with_system(filled.0),
            filled.1,
            ask(run.io, Request::ListDir(scan.path())),
        ),
        Outcome::Fail(e) => fail(run.io, e),
        Outcome::Waiting => waiting(run.io),
    }
}

/// Goes on when the directories of the module are known.
pub open spec fn scan_listed(scan: Scan, has_file: bool, run: Run<ReplyView>) -> Run<
    Option<NodeView>,
>
    decreases scan.left(), 6nat, 0nat,
{
    match run.out {
        Outcome::Done(reply) => match listing_of(reply) {
            Ok(dirs) => scan_dirs(scan, Dirs { dirs, next: 0, has_file }, run.io),
            Err(e) => fail(run.io, e),
        },
        Outcome::Fail(e) => fail(run.io, e),
        Outcome::Waiting => waiting(run.io),
    }
}

/// Goes through the directories of the module that are still to come.
#[verifier::opaque]
pub open spec fn scan_dirs(scan: Scan, dirs: Dirs, io: Io) -> Run<Option<NodeView>>
    decreases scan.left(), 5nat, 3 * dirs.left(),
{
    if scan.next < 0 || scan.next >= scan.modules.len() {
        waiting(io)
    } else if dirs.next < 0 || dirs.next >= dirs.dirs.len() {
        scan_from(
            Scan {
                found: Found { any: scan.found.any || dirs.has_file, ..scan.found },
                ..scan.passed()
            },
            io,
        )
    } else if may_be_other_partition(dirs.dirs[dirs.next]) {
        scan_supported(scan, dirs, supported(scan.rules, dirs.name(), io))
    } else {
        scan_dirs(scan, dirs.passed(false), io)
    }
}

/// Goes on when it is known whether the directory is that of a supported partition.
pub open spec fn scan_supported(scan: Scan, dirs: Dirs, run: Run<bool>) -> Run<Option<NodeView>>
    decreases scan.left(), 5nat, 3 * dirs.left() - 1,
{
    if dirs.next < 0 || dirs.next >= dirs.dirs.len() {
        waiting(run.io)
    } else {
        match run.out {
            Outcome::Done(true) => scan_partition(
                scan,
                dirs,
                collected(root_node(dirs.name()), joined(scan.path(), dirs.name()), run.io),
            ),
            Outcome::Done(false) => scan_dirs(scan, dirs.passed(false), run.io),
            Outcome::Fail(e) => fail(run.io, e),
            Outcome::Waiting => waiting(run.io),
        }
    }
}

/// Goes on when the files for the partition have been collected.
pub open spec fn scan_partition(scan: Scan, dirs: Dirs, run: Run<(NodeView, bool)>) -> Run<
    Option<NodeView>,
>
    decreases scan.left(), 5nat, 3 * dirs.left() - 2,
{
    if dirs.next < 0 || dirs.next >= dirs.dirs.len() {
        waiting(run.io)
    } else {
        match run.out {
            Outcome::Done(filled) => scan_dirs(
                Scan { found: with_partition(scan.found, filled.0, filled.1), ..scan },
                dirs.passed(filled.1),
                run.io,
            ),
            Outcome::Fail(e) => fail(run.io, e),
            Outcome::Waiting => waiting(run.io),
        }
    }
}

/// The partitions whose files modules may keep below those for the system partition, and whether
/// the device has to have a symbolic link for them there.
pub open spec fn builtin_partitions() -> Seq<(Text, bool)> {
    seq![
        ("vendor".spec_bytes(), true),
        ("system_ext".spec_bytes(), true),
        ("product".spec_bytes(), true),
        ("odm".spec_bytes(), false),
        ("oem".spec_bytes(), false),
    ]
}

/// Makes the tree of what was found.
pub open spec fn finished(found: Found, io: Io) -> Run<Option<NodeView>> {
    if found.any {
        promote_from(0, found, io)
    } else {
        done(io, None)
    }
}

/// The files for the system partition take their place at the root.
pub open spec fn tree_of(found: Found) -> NodeView {
    NodeView { children: replaced(found.root.children, found.system), ..found.root }
}

/// Takes the files for a partition from below those for the system partition to the root.
pub open spec fn promoted(found: Found, name: Text) -> Found {
    match position(found.system.children, name) {
        Some(k) => Found {
            root: NodeView {
                children: absorbed(found.root.children, found.system.children[k]),
                ..found.root
            },
            system: NodeView { children: found.system.children.remove(k), ..found.system },
            ..found
        },
        None => found,
    }
}

/// Takes the files for the partitions from the `k`th one on to the root, as far as they are
/// partitions of their own on the device.
pub open spec fn promote_from(k: int, found: Found, io: Io) -> Run<Option<NodeView>>
    decreases 5 - k, 10nat,
{
    if k < 0 || k >= 5 {
        done(io, Some(tree_of(found)))
    } else {
        let run = ask(io, Request::IsDir(device_dir(builtin_partitions()[k].0)));
        match run.out {
            Outcome::Done(reply) => promote_dir(k, found, reply, run.io),
            Outcome::Fail(e) => fail(run.io, e),
            Outcome::Waiting => waiting(run.io),
        }
    }
}

/// Goes on when it is known whether the device has a directory for the partition.
pub open spec fn promote_dir(k: int, found: Found, reply: ReplyView, io: Io) -> Run<
    Option<NodeView>,
>
    decreases 5 - k, 9nat,
{
    if k < 0 || k >= 5 {
        waiting(io)
    } else {
        let partition = builtin_partitions()[k];
        if !flag_of(reply) {
            promote_from(k + 1, found, io)
        } else if partition.1 {
            let run = ask(
                io,
                Request::IsSymlink(joined("/system".spec_bytes(), partition.0)),
            );
            match run.out {
                Outcome::Done(reply) => promote_link(k, found, reply, run.io),
                Outcome::Fail(e) => fail(run.io, e),
                Outcome::Waiting => waiting(run.io),
            }
        } else {
            promote_from(k + 1, promoted(found, partition.0), io)
        }
    }
}

/// Goes on when it is known whether the system partition has a symbolic link for the partition.
pub open spec fn promote_link(k: int, found: Found, reply: ReplyView, io: Io) -> Run<
    Option<NodeView>,
>
    decreases 5 - k, 8nat,
{
    if k < 0 || k >= 5 {
        waiting(io)
    } else if flag_of(reply) {
        promote_from(k + 1, promoted(found, builtin_partitions()[k].0), io)
    } else {
        promote_from(k + 1, found, io)
    }
}

/// A way through the modules, at run time.
struct Progress {
    rules: Rules,
    modules: Vec<Entry<Vec<u8>>>,
    next: usize,
    root: Node,
    system: Node,
    any: bool,
}

impl Progress {
    spec fn scan(self) -> Scan {
        Scan {
            rules: self.rules@,
            modules: entries_view(self.modules@),
            next: self.next as int,
            found: self.found(),
        }
    }

    spec fn found(self) -> Found {
        Found { root: self.root@, system: self.system@, any: self.any }
    }

    /// The directory of the module that comes next.
    fn path(&self) -> (path: Vec<u8>)
        requires
            self.next < self.modules.len(),
        ensures
            path@ == self.scan().path(),
    {
        assert(self.scan().modules[self.next as int] == self.modules@[self.next as int]@);
        join(self.rules.module_dir.as_slice(), self.modules[self.next].name.as_slice())
    }

    /// Where the module that comes next keeps the files for the system partition.
    fn system_path(&self) -> (path: Vec<u8>)
        requires
            self.next < self.modules.len(),
        ensures
            path@ == joined(self.scan().path(), "system".spec_bytes()),
    {
        join(self.path().as_slice(), "system".as_bytes())
    }
}

/// A way through the directories of one module, at run time.
struct DirProgress {
    dirs: Vec<Entry<Vec<u8>>>,
    next: usize,
    has_file: bool,
}

impl DirProgress {
    spec fn view(self) -> Dirs {
        Dirs { dirs: entries_view(self.dirs@), next: self.next as int, has_file: self.has_file }
    }
}

/// A tree that is being put together from the files of all modules.
pub struct Scanning {
    progress: Progress,
    stage: ScanStage,
}

enum ScanStage {
    /// The modules.
    Listing,
    /// Whether the module is to be mounted.
    Checking(ModuleCheck),
    /// Whether it has files for the system partition.
    Looking,
    /// Those files.
    System(Collecting),
    /// The module's directories.
    DirListing(bool),
    /// Whether a directory is that of a supported partition.
    Supporting(SupportCheck, DirProgress),
    /// The files for that partition.
    Partition(Collecting, DirProgress),
    /// Whether the device has a directory for a partition.
    PromoteDir(usize),
    /// Whether the system partition has a symbolic link for a partition.
    PromoteLink(usize),
}

impl Machine for Scanning {
    type Value = MaybeNode;

    closed spec fn after(self, reply: ReplyView, io: Io) -> Run<Option<NodeView>> {
        let scan = self.progress.scan();
        match self.stage {
            ScanStage::Listing => scanned_of(scan.rules, reply, io),
            ScanStage::Checking(check) => scan_checked(scan, check.after(reply, io)),
            ScanStage::Looking => scan_looked_at(scan, done(io, reply)),
            ScanStage::System(collecting) => scan_collected(scan, collecting.after(reply, io)),
            ScanStage::DirListing(has_file) => scan_listed(scan, has_file, done(io, reply)),
            ScanStage::Supporting(check, dirs) => scan_supported(
                scan,
                dirs.view(),
                check.after(reply, io),
            ),
            ScanStage::Partition(collecting, dirs) => scan_partition(
                scan,
                dirs.view(),
                collecting.after(reply, io),
            ),
            ScanStage::PromoteDir(k) => promote_dir(k as int, scan.found, reply, io),
            ScanStage::PromoteLink(k) => promote_link(k as int, scan.found, reply, io),
        }
    }
}

/// The name of the `k`th builtin partition, and whether it needs a symbolic link.
fn builtin_partition(k: usize) -> (partition: (Vec<u8>, bool))
    requires
        k < 5,
    ensures
        partition.0@ == builtin_partitions()[k as int].0,
        partition.1 == builtin_partitions()[k as int].1,
{
    if k == 0 {
        (copied("vendor".as_bytes()), true)
    } else if k == 1 {
        (copied("system_ext".as_bytes()), true)
    } else if k == 2 {
        (copied("product".as_bytes()), true)
    } else if k == 3 {
        (copied("odm".as_bytes()), false)
    } else {
        (copied("oem".as_bytes()), false)
    }
}

/// Takes the files for a partition from below those for the system partition to the root.
fn promote(progress: Progress, name: &[u8]) -> (result: Progress)
    ensures
        result.found() == promoted(progress.found(), name@),
{
    let ghost before = progress.found();
    let mut progress = progress;
    proof {
        lemma_children_view(progress.system);
        lemma_children_view(progress.root);
    }
    match find(&progress.system.children, name) {
        Some(k) => {
            let node = progress.system.children.remove(k);
            proof {
                lemma_children_view(progress.system);
                assert(node@ == before.system.children[k as int]);
                assert(nodes_view(progress.system.children@) =~= before.system.children.remove(
                    k as int,
                ));
            }
            absorb(&mut progress.root.children, node);
            proof {
                lemma_children_view(progress.root);
            }
            progress
        },
        None => progress,
    }
}

/// Takes the files for the partitions from the `k`th one on to the root.
fn promote_rest(progress: Progress, k: usize) -> (turn: Turn<Scanning>)
    requires
        k <= 5,
    ensures
        forall|io: Io| #[trigger] turn.means(io) == promote_from(k as int, progress.found(), io),
{
    if k < 5 {
        let (name, _) = builtin_partition(k);
        let request = Request::IsDir(join("/".as_bytes(), name.as_slice()));
        Turn::Ask(request, Scanning { progress, stage: ScanStage::PromoteDir(k) })
    } else {
        let mut root = progress.root;
        proof {
            lemma_children_view(root);
        }
        put(&mut root.children, progress.system);
        proof {
            lemma_children_view(root);
        }
        Turn::Done(MaybeNode(Some(root)))
    }
}

/// Goes through the modules that are still to come.
#[verifier::loop_isolation(false)]
fn scan_modules(progress: Progress) -> (turn: Turn<Scanning>)
    ensures
        forall|io: Io| #[trigger] turn.means(io) == scan_from(progress.scan(), io),
    decreases still_to_come(entries_view(progress.modules@), progress.next as int), 1nat,
{
    let ghost start = progress.scan();
    let mut progress = progress;
    while progress.next < progress.modules.len()
        invariant
            forall|io: Io| #[trigger] scan_from(start, io) == scan_from(progress.scan(), io),
            progress.scan().left() <= start.left(),
        decreases progress.modules.len() - progress.next,
    {
        let ghost scan = progress.scan();
        let next: usize = progress.next;
        assert(scan.modules[next as int] == progress.modules@[next as int]@);
        match progress.modules[next].kind {
            Err(id) => {
                let result: Turn<Scanning> = Turn::Fail(Error::Failed(id));
                assert forall|io: Io| #[trigger] result.means(io) == scan_from(scan, io) by {
                    reveal(scan_from);
                }
                return result;
            },
            Ok(FileKind::Dir) => {
                if is_utf8(progress.modules[next].name.as_slice()) {
                    let turn = progress.rules.check_module(progress.path().as_slice());
                    assert forall|io: Io| #[trigger]
                        scan_from(scan, io) == scan_checked(scan, turn.means(io)) by {
                        reveal(scan_from);
                    }
                    return check_next(progress, turn);
                }
                let name = copied(progress.modules[next].name.as_slice());
                let result: Turn<Scanning> = Turn::Fail(Error::ModuleName(name));
                assert forall|io: Io| #[trigger] result.means(io) == scan_from(scan, io) by {
                    reveal(scan_from);
                }
                return result;
            },
            Ok(_) => {
                assert forall|io: Io| #[trigger]
                    scan_from(scan, io) == scan_from(scan.passed(), io) by {
                    reveal(scan_from);
                }
            },
        }
        progress.next = next + 1;
        assert(progress.scan() == scan.passed());
    }
    assert forall|io: Io| #[trigger] scan_from(start, io) == finished(progress.found(), io) by {
        assert(scan_from(start, io) == scan_from(progress.scan(), io));
        reveal(scan_from);
    }
    if progress.any {
        promote_rest(progress, 0)
    } else {
        Turn::Done(MaybeNode(None))
    }
}

/// The next module from the question on whether it is to be mounted.
fn check_next(progress: Progress, turn: Turn<ModuleCheck>) -> (result: Turn<Scanning>)
    requires
        progress.next < progress.modules.len(),
    ensures
        forall|io: Io| #[trigger] result.means(io) == scan_checked(
            progress.scan(),
            turn.means(io),
        ),
    decreases still_to_come(entries_view(progress.modules@), progress.next as int), 0nat,
{
    let ghost scan = progress.scan();
    let ghost here = turn;
    match turn {
        Turn::Ask(request, check) => Turn::Ask(
            request,
            Scanning { progress, stage: ScanStage::Checking(check) },
        ),
        Turn::Done(true) => {
            let request = Request::IsDir(progress.system_path());
            Turn::Ask(request, Scanning { progress, stage: ScanStage::Looking })
        },
        Turn::Done(false) => {
            let mut progress = progress;
            progress.next = progress.next + 1;
            assert(progress.scan() == scan.passed());
            assert forall|io: Io| #[trigger]
                scan_checked(scan, here.means(io)) == scan_from(scan.passed(), io) by {
                reveal(scan_from);
            }
            scan_modules(progress)
        },
        Turn::Fail(e) => Turn::Fail(e),
    }
}

/// The next module from where its files for the system partition are collected.
fn collect_system(progress: Progress, turn: Turn<Collecting>) -> (result: Turn<Scanning>)
    requires
        progress.next < progress.modules.len(),
    ensures
        forall|io: Io| #[trigger] result.means(io) == scan_collected(
            progress.scan(),
            turn.means(io),
        ),
{
    match turn {
        Turn::Ask(request, collecting) => Turn::Ask(
            request,
            Scanning { progress, stage: ScanStage::System(collecting) },
        ),
        Turn::Done(filled) => {
            let (system, has_file) = filled;
            let mut progress = progress;
            let request = Request::ListDir(progress.path());
            progress.system = system;
            Turn::Ask(request, Scanning { progress, stage: ScanStage::DirListing(has_file) })
        },
        Turn::Fail(e) => Turn::Fail(e),
    }
}

/// Goes through the directories of the module that are still to come.
#[verifier::loop_isolation(false)]
fn scan_rest(progress: Progress, dirs: DirProgress) -> (turn: Turn<Scanning>)
    requires
        progress.next < progress.modules.len(),
    ensures
        forall|io: Io| #[trigger] turn.means(io) == scan_dirs(progress.scan(), dirs.view(), io),
    decreases still_to_come(entries_view(dirs.dirs@), dirs.next as int), 2nat,
{
    let ghost scan = progress.scan();
    let ghost start = dirs.view();
    let mut dirs = dirs;
    while dirs.next < dirs.dirs.len()
        invariant
            forall|io: Io| #[trigger]
                scan_dirs(scan, start, io) == scan_dirs(scan, dirs.view(), io),
            dirs.view().left() <= start.left(),
        decreases dirs.dirs.len() - dirs.next,
    {
        let ghost here = dirs.view();
        let next: usize = dirs.next;
        assert(here.dirs[next as int] == dirs.dirs@[next as int]@);
        if is_partition_candidate(&dirs.dirs[next]) && !same(
            dirs.dirs[next].name.as_slice(),
            "system".as_bytes(),
        ) {
            let turn = is_supported_partition(&progress.rules, dirs.dirs[next].name.as_slice());
            assert forall|io: Io| #[trigger]
                scan_dirs(scan, here, io) == scan_supported(scan, here, turn.means(io)) by {
                reveal(scan_dirs);
            }
            return support_next(progress, dirs, turn);
        }
        assert forall|io: Io| #[trigger]
            scan_dirs(scan, here, io) == scan_dirs(scan, here.passed(false), io) by {
            reveal(scan_dirs);
        }
        dirs.next = next + 1;
        assert(dirs.view() == here.passed(false));
    }
    let mut progress = progress;
    progress.next = progress.next + 1;
    progress.any = progress.any || dirs.has_file;
    assert forall|io: Io| #[trigger]
        scan_dirs(scan, start, io) == scan_from(progress.scan(), io) by {
        assert(scan_dirs(scan, start, io) == scan_dirs(scan, dirs.view(), io));
        reveal(scan_dirs);
        reveal(scan_from);
    }
    scan_modules(progress)
}

/// The next directory from the question on whether it is that of a supported partition.
fn support_next(progress: Progress, dirs: DirProgress, turn: Turn<SupportCheck>) -> (result: Turn<
    Scanning,
>)
    requires
        progress.next < progress.modules.len(),
        dirs.next < dirs.dirs.len(),
    ensures
        forall|io: Io| #[trigger]
            result.means(io) == scan_supported(progress.scan(), dirs.view(), turn.means(io)),
    decreases still_to_come(entries_view(dirs.dirs@), dirs.next as int), 1nat,
{
    let ghost scan = progress.scan();
    let ghost here = dirs.view();
    let ghost question = turn;
    match turn {
        Turn::Ask(request, check) => Turn::Ask(
            request,
            Scanning { progress, stage: ScanStage::Supporting(check, dirs) },
        ),
        Turn::Done(true) => {
            assert(here.dirs[dirs.next as int] == dirs.dirs@[dirs.next as int]@);
            let name = copied(dirs.dirs[dirs.next].name.as_slice());
            let path = join(progress.path().as_slice(), name.as_slice());
            let turn = Node::new_root(name.as_slice()).collect_module_files(path.as_slice());
            partition_next(progress, dirs, turn)
        },
        Turn::Done(false) => {
            let mut dirs = dirs;
            dirs.next = dirs.next + 1;
            assert(dirs.view() == here.passed(false));
            assert forall|io: Io| #[trigger]
                scan_supported(scan, here, question.means(io)) == scan_dirs(
                    scan,
                    here.passed(false),
                    io,
                ) by {
                reveal(scan_dirs);
            }
            scan_rest(progress, dirs)
        },
        Turn::Fail(e) => Turn::Fail(e),
    }
}

/// The next directory from where its files are collected.
fn partition_next(progress: Progress, dirs: DirProgress, turn: Turn<Collecting>) -> (result: Turn<
    Scanning,
>)
    requires
        progress.next < progress.modules.len(),
        dirs.next < dirs.dirs.len(),
    ensures
        forall|io: Io| #[trigger]
            result.means(io) == scan_partition(progress.scan(), dirs.view(), turn.means(io)),
    decreases still_to_come(entries_view(dirs.dirs@), dirs.next as int), 0nat,
{
    let ghost scan = progress.scan();
    let ghost here = dirs.view();
    let ghost question = turn;
    match turn {
        Turn::Ask(request, collecting) => Turn::Ask(
            request,
            Scanning { progress, stage: ScanStage::Partition(collecting, dirs) },
        ),
        Turn::Done(filled) => {
            let (node, has_file) = filled;
            let mut progress = progress;
            let mut dirs = dirs;
            let ghost grown = Scan {
                found: with_partition(scan.found, node@, has_file),
                ..scan
            };
            proof {
                lemma_children_view(progress.root);
            }
            if has_file {
                absorb(&mut progress.root.children, node);
                proof {
                    lemma_children_view(progress.root);
                }
            }
            assert(progress.scan() == grown);
            dirs.next = dirs.next + 1;
            dirs.has_file = dirs.has_file || has_file;
            assert(dirs.view() == here.passed(has_file));
            assert forall|io: Io| #[trigger]
                scan_partition(scan, here, question.means(io)) == scan_dirs(
                    grown,
                    here.passed(has_file),
                    io,
                ) by {
                reveal(scan_dirs);
            }
            scan_rest(progress, dirs)
        },
        Turn::Fail(e) => Turn::Fail(e),
    }
}

/// Starts to collect the files of all modules into one tree.
pub fn collect_module_files(rules: Rules) -> (turn: Turn<Scanning>)
    ensures
        forall|io: Io| #[trigger] turn.means(io) == scanned(rules@, io),
{
    let request = Request::ListDir(copied(rules.module_dir.as_slice()));
    let progress = Progress {
        rules,
        modules: Vec::new(),
        next: 0,
        root: Node::new_root("".as_bytes()),
        system: Node::new_root("system".as_bytes()),
        any: false,
    };
    Turn::Ask(request, Scanning { progress, stage: ScanStage::Listing })
}

impl Scanning {
    /// Whether a pause is one that can be gone on from.
    #[verifier::type_invariant]
    spec fn in_range(self) -> bool {
        let in_module = self.progress.next < self.progress.modules.len();
        match self.stage {
            ScanStage::Listing => self.progress.next == 0 && self.progress.found()
                == nothing_found(),
            ScanStage::Checking(_) => in_module,
            ScanStage::Looking => in_module,
            ScanStage::System(_) => in_module,
            ScanStage::DirListing(_) => in_module,
            ScanStage::Supporting(_, dirs) => in_module && dirs.next < dirs.dirs.len(),
            ScanStage::Partition(_, dirs) => in_module && dirs.next < dirs.dirs.len(),
            ScanStage::PromoteDir(k) => k < 5,
            ScanStage::PromoteLink(k) => k < 5,
        }
    }

    /// Goes on with the host's reply.
    pub fn resume(self, reply: Reply) -> (turn: Turn<Scanning>)
        ensures
            forall|io: Io| #[trigger] turn.means(io) == self.after(reply@, io),
    {
        proof {
            use_type_invariant(&self);
        }
        let mut progress = self.progress;
        let ghost scan = progress.scan();
        match self.stage {
            ScanStage::Listing => match reply.into_listing() {
                Ok(modules) => {
                    progress.modules = modules;
                    scan_modules(progress)
                },
                Err(e) => Turn::Fail(e),
            },
            ScanStage::Checking(check) => check_next(progress, check.resume(reply)),
            ScanStage::Looking => {
                if reply.into_flag() {
                    let path = progress.system_path();
                    let mut system = Node::new_root("system".as_bytes());
                    std::mem::swap(&mut system, &mut progress.system);
                    let turn = system.collect_module_files(path.as_slice());
                    assert forall|io: Io| #[trigger]
                        self.after(reply@, io) == scan_collected(
                            progress.scan(),
                            turn.means(io),
                        ) by {
                        reveal(scan_dirs);
                        reveal(scan_from);
                    }
                    collect_system(progress, turn)
                } else {
                    let request = Request::ListDir(progress.path());
                    Turn::Ask(request, Scanning { progress, stage: ScanStage::DirListing(false) })
                }
            },
            ScanStage::System(collecting) => collect_system(progress, collecting.resume(reply)),
            ScanStage::DirListing(has_file) => match reply.into_listing() {
                Ok(entries) => {
                    let dirs = DirProgress { dirs: entries, next: 0, has_file };
                    assert forall|io: Io| true implies #[trigger] self.after(reply@, io)
                        == scan_dirs(scan, dirs.view(), io) by {
                        reveal(scan_dirs);
                    }
                    scan_rest(progress, dirs)
                },
                Err(e) => Turn::Fail(e),
            },
            ScanStage::Supporting(check, dirs) => support_next(
                progress,
                dirs,
                check.resume(reply),
            ),
            ScanStage::Partition(collecting, dirs) => partition_next(
                progress,
                dirs,
                collecting.resume(reply),
            ),
            ScanStage::PromoteDir(k) => {
                let (name, needs_link) = builtin_partition(k);
                if !reply.into_flag() {
                    promote_rest(progress, k + 1)
                } else if needs_link {
                    let request = Request::IsSymlink(join("/system".as_bytes(), name.as_slice()));
                    Turn::Ask(request, Scanning { progress, stage: ScanStage::PromoteLink(k) })
                } else {
                    promote_rest(promote(progress, name.as_slice()), k + 1)
                }
            },
            ScanStage::PromoteLink(k) => {
                if reply.into_flag() {
                    let (name, _) = builtin_partition(k);
                    promote_rest(promote(progress, name.as_slice()), k + 1)
                } else {
                    promote_rest(progress, k + 1)
                }
            },
        }
    }
}

} // verus!
