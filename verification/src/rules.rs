//! Which modules take part, and which of their directories.

use vstd::prelude::*;
#[allow(unused_imports)]
use vstd::string::StringSliceAdditionalSpecFns;
use vstd::utf8::valid_utf8;

use crate::bytes::{copied, is_utf8, join, joined, same};
use crate::protocol::{
    ask, done, fail, flag_of, waiting, Entry, FileKind, Io, Machine, Outcome, Reply, ReplyView,
    Request, Run, Text, Turn,
};

verus! {

/// Where the modules are and how they are marked.
#[derive(Debug, PartialEq, Eq)]
pub struct Rules {
    /// The directory that holds one directory per module.
    pub module_dir: Vec<u8>,
    /// The name of the file that marks a module as disabled.
    pub disable_file: Vec<u8>,
    /// The name of the file that marks a module as about to be removed.
    pub remove_file: Vec<u8>,
    /// The name of the file that marks a module as not to be mounted.
    pub skip_mount_file: Vec<u8>,
    /// The partitions that a module may have a directory for.
    pub supported_partitions: Vec<Vec<u8>>,
}

/// The rules in specifications.
pub struct RulesView {
    pub module_dir: Text,
    pub disable_file: Text,
    pub remove_file: Text,
    pub skip_mount_file: Text,
    pub supported_partitions: Seq<Text>,
}

impl View for Rules {
    type V = RulesView;

    open spec fn view(&self) -> RulesView {
        RulesView {
            module_dir: self.module_dir@,
            disable_file: self.disable_file@,
            remove_file: self.remove_file@,
            skip_mount_file: self.skip_mount_file@,
            supported_partitions: self.supported_partitions@.map_values(|p: Vec<u8>| p@),
        }
    }
}

/// The directory of the device that is named by a partition.
pub open spec fn device_dir(name: Text) -> Text {
    joined("/".spec_bytes(), name)
}

/// The paths none of which may exist if the module at `path` is to be mounted.
pub open spec fn marker_paths(rules: RulesView, path: Text) -> Seq<Text> {
    seq![
        joined(path, rules.disable_file),
        joined(path, rules.remove_file),
        joined(path, rules.skip_mount_file),
    ]
}

/// Finds out whether none of the paths from `i` on exists.
pub open spec fn none_exists(paths: Seq<Text>, i: int, io: Io) -> Run<bool>
    decreases paths.len() - i,
{
    if i < 0 || i >= paths.len() {
        done(io, true)
    } else {
        let run = ask(io, Request::Exists(paths[i]));
        match run.out {
            Outcome::Done(reply) => if flag_of(reply) {
                done(run.io, false)
            } else {
                none_exists(paths, i + 1, run.io)
            },
            Outcome::Fail(e) => fail(run.io, e),
            Outcome::Waiting => waiting(run.io),
        }
    }
}

/// Finds out whether the directory `path` holds a module that is to be mounted: it has a
/// description, and is not disabled, about to be removed or kept from being mounted.
pub open spec fn takes_part(rules: RulesView, path: Text, io: Io) -> Run<bool> {
    let run = ask(io, Request::Exists(joined(path, "module.prop".spec_bytes())));
    match run.out {
        Outcome::Done(reply) => if flag_of(reply) {
            none_exists(marker_paths(rules, path), 0, run.io)
        } else {
            done(run.io, false)
        },
        Outcome::Fail(e) => fail(run.io, e),
        Outcome::Waiting => waiting(run.io),
    }
}

/// Whether an entry of a module's directory can be the directory of a partition.
pub open spec fn may_be_partition(entry: Entry<Text>) -> bool {
    &&& entry.kind == Ok::<FileKind, u64>(FileKind::Dir)
    &&& valid_utf8(entry.name)
    &&& !(entry.name.len() > 0 && entry.name[0] == 46)
    &&& entry.name != "install_scripts".spec_bytes()
}

/// Finds out whether a name is that of a supported partition which the device has.
pub open spec fn supported(rules: RulesView, name: Text, io: Io) -> Run<bool> {
    if !rules.supported_partitions.contains(name) {
        done(io, false)
    } else {
        let run = ask(io, Request::IsDir(device_dir(name)));
        match run.out {
            Outcome::Done(reply) => supported_dir(name, reply, run.io),
            Outcome::Fail(e) => fail(run.io, e),
            Outcome::Waiting => waiting(run.io),
        }
    }
}

/// Goes on when it is known whether the device has a directory of that name.
pub open spec fn supported_dir(name: Text, reply: ReplyView, io: Io) -> Run<bool> {
    if flag_of(reply) {
        done(io, true)
    } else {
        let run = ask(io, Request::IsSymlink(device_dir(name)));
        match run.out {
            Outcome::Done(reply) => done(run.io, flag_of(reply)),
            Outcome::Fail(e) => fail(run.io, e),
            Outcome::Waiting => waiting(run.io),
        }
    }
}

/// A question whether a module is to be mounted.
pub struct ModuleCheck {
    markers: Vec<Vec<u8>>,
    next: usize,
    described: bool,
}

/// The texts of a list.
pub open spec fn texts(list: Seq<Vec<u8>>) -> Seq<Text> {
    list.map_values(|p: Vec<u8>| p@)
}

impl Machine for ModuleCheck {
    type Value = bool;

    closed spec fn after(self, reply: ReplyView, io: Io) -> Run<bool> {
        if self.described {
            if flag_of(reply) {
                done(io, false)
            } else {
                none_exists(texts(self.markers@), self.next + 1, io)
            }
        } else if flag_of(reply) {
            none_exists(texts(self.markers@), 0, io)
        } else {
            done(io, false)
        }
    }
}

/// A question whether a partition is supported.
pub struct SupportCheck {
    name: Vec<u8>,
    no_dir: bool,
}

impl Machine for SupportCheck {
    type Value = bool;

    closed spec fn after(self, reply: ReplyView, io: Io) -> Run<bool> {
        if self.no_dir {
            done(io, flag_of(reply))
        } else {
            supported_dir(self.name@, reply, io)
        }
    }
}

/// Asks whether none of the paths from `next` on exists.
fn ask_none_exists(markers: Vec<Vec<u8>>, next: usize) -> (turn: Turn<ModuleCheck>)
    ensures
        forall|io: Io| #[trigger] turn.means(io) == none_exists(texts(markers@), next as int, io),
{
    if next < markers.len() {
        let request = Request::Exists(copied(markers[next].as_slice()));
        Turn::Ask(request, ModuleCheck { markers, next, described: true })
    } else {
        Turn::Done(true)
    }
}

impl Rules {
    /// Starts to find out whether the directory `path` holds a module that is to be mounted.
    pub fn check_module(&self, path: &[u8]) -> (turn: Turn<ModuleCheck>)
        ensures
            forall|io: Io| #[trigger] turn.means(io) == takes_part(self@, path@, io),
    {
        let mut markers: Vec<Vec<u8>> = Vec::new();
        markers.push(join(path, self.disable_file.as_slice()));
        markers.push(join(path, self.remove_file.as_slice()));
        markers.push(join(path, self.skip_mount_file.as_slice()));
        assert(texts(markers@) =~= marker_paths(self@, path@));
        Turn::Ask(
            Request::Exists(join(path, "module.prop".as_bytes())),
            ModuleCheck { markers, next: 0, described: false },
        )
    }

    /// Whether a name is on the list of partitions.
    pub fn lists_partition(&self, name: &[u8]) -> (listed: bool)
        ensures
            listed == self@.supported_partitions.contains(name@),
    {
        let ghost all = self@.supported_partitions;
        let mut i: usize = 0;
        while i < self.supported_partitions.len()
            invariant
                i <= self.supported_partitions.len(),
                all == self@.supported_partitions,
                forall|j: int| 0 <= j < i ==> all[j] != name@,
            decreases self.supported_partitions.len() - i,
        {
            assert(all[i as int] == self.supported_partitions@[i as int]@);
            if same(self.supported_partitions[i].as_slice(), name) {
                return true;
            }
            i += 1;
        }
        false
    }
}

/// Starts to find out whether a name is that of a supported partition which the device has.
pub fn is_supported_partition(rules: &Rules, name: &[u8]) -> (turn: Turn<SupportCheck>)
    ensures
        forall|io: Io| #[trigger] turn.means(io) == supported(rules@, name@, io),
{
    if rules.lists_partition(name) {
        Turn::Ask(
            Request::IsDir(join("/".as_bytes(), name)),
            SupportCheck { name: copied(name), no_dir: false },
        )
    } else {
        Turn::Done(false)
    }
}

impl ModuleCheck {
    /// Whether a pause is one that can be gone on from.
    #[verifier::type_invariant]
    spec fn in_range(self) -> bool {
        self.described ==> self.next < self.markers.len()
    }

    /// Goes on with the host's reply.
    pub fn resume(self, reply: Reply) -> (turn: Turn<ModuleCheck>)
        ensures
            forall|io: Io| #[trigger] turn.means(io) == self.after(reply@, io),
    {
        proof {
            use_type_invariant(&self);
        }
        if reply.into_flag() {
            if self.described {
                Turn::Done(false)
            } else {
                ask_none_exists(self.markers, 0)
            }
        } else if self.described {
            ask_none_exists(self.markers, self.next + 1)
        } else {
            Turn::Done(false)
        }
    }
}

impl SupportCheck {
    /// Goes on with the host's reply.
    pub fn resume(self, reply: Reply) -> (turn: Turn<SupportCheck>)
        ensures
            forall|io: Io| #[trigger] turn.means(io) == self.after(reply@, io),
    {
        let yes = reply.into_flag();
        if self.no_dir || yes {
            Turn::Done(yes)
        } else {
            let request = Request::IsSymlink(join("/".as_bytes(), self.name.as_slice()));
            Turn::Ask(request, SupportCheck { name: self.name, no_dir: true })
        }
    }
}

/// Whether an entry of a module's directory can be the directory of a partition.
pub fn is_partition_candidate(entry: &Entry<Vec<u8>>) -> (candidate: bool)
    ensures
        candidate == may_be_partition(entry@),
{
    let is_dir = match entry.kind {
        Ok(FileKind::Dir) => true,
        _ => false,
    };
    is_dir && is_utf8(entry.name.as_slice()) && !(entry.name.len() > 0 && entry.name[0] == 46)
        && !same(entry.name.as_slice(), "install_scripts".as_bytes())
}

} // verus!
