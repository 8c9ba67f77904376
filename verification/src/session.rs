//! Mounting the modules, and taking overlays back, from beginning to end.

use vstd::prelude::*;
#[allow(unused_imports)]
use vstd::string::StringSliceAdditionalSpecFns;

use crate::bytes::copied;
use crate::mount::mounted;
use crate::mounting::{do_magic_mount, Mounting};
use crate::node::{MaybeNode, Node, NodeView};
use crate::overlay::{leftovers_unmounted, overlays_mounted, overlays_unmounted};
use crate::overlaying::{
    do_overlayfs_mount, unmount_leftovers, unmount_overlayfs, OverlayMounting, OverlayUnmounting,
};
use crate::protocol::{
    ask, done, fail, flag_of, waiting, Error, Io, Machine, Outcome, Reply, ReplyView, Request, Run,
    Task, Text, Turn,
};
use crate::rules::{Rules, RulesView};
use crate::scan::{collect_module_files, scanned, Scanning};
use crate::script::{
    attempt, do_task, may_fail, must, must_succeed, perform, perform_steps, steps_view, task,
    Script, Step,
};

verus! {

/// How modules are mounted.
#[derive(Debug, Clone, Copy, PartialEq, Eq, Structural)]
pub enum MountMode {
    /// By bind mounts, on a memory file system where that is needed.
    Magic,
    /// By overlay file systems.
    OverlayFs,
}

impl View for MountMode {
    type V = MountMode;

    open spec fn view(&self) -> MountMode {
        *self
    }
}

/// What there is to know of the device.
#[derive(Debug, PartialEq, Eq)]
pub struct Config {
    pub rules: Rules,
    /// The directory for the memory file system.
    pub mount_source: Vec<u8>,
    /// The directory for what overlays need.
    pub overlay_work_dir: Vec<u8>,
    /// The file whose presence asks for overlay file systems.
    pub overlay_flag: Vec<u8>,
    /// The file whose presence asks for bind mounts.
    pub magic_flag: Vec<u8>,
}

/// What there is to know of the device, in specifications.
pub struct ConfigView {
    pub rules: RulesView,
    pub mount_source: Text,
    pub overlay_work_dir: Text,
    pub overlay_flag: Text,
    pub magic_flag: Text,
}

impl View for Config {
    type V = ConfigView;

    open spec fn view(&self) -> ConfigView {
        ConfigView {
            rules: self.rules@,
            mount_source: self.mount_source@,
            overlay_work_dir: self.overlay_work_dir@,
            overlay_flag: self.overlay_flag@,
            magic_flag: self.magic_flag@,
        }
    }
}

/// Finds out how modules are mounted: the flag for overlays comes before the flag for bind mounts,
/// which are also what is done where there is neither.
pub open spec fn mode_detected(overlay_flag: Text, magic_flag: Text, io: Io) -> Run<MountMode> {
    let run = ask(io, Request::Exists(overlay_flag));
    match run.out {
        Outcome::Done(reply) => mode_by_overlay(magic_flag, reply, run.io),
        Outcome::Fail(e) => fail(run.io, e),
        Outcome::Waiting => waiting(run.io),
    }
}

/// Goes on when it is known whether the flag for overlays is there.
pub open spec fn mode_by_overlay(magic_flag: Text, reply: ReplyView, io: Io) -> Run<MountMode> {
    if flag_of(reply) {
        done(io, MountMode::OverlayFs)
    } else {
        let run = ask(io, Request::Exists(magic_flag));
        match run.out {
            Outcome::Done(_) => done(run.io, MountMode::Magic),
            Outcome::Fail(e) => fail(run.io, e),
            Outcome::Waiting => waiting(run.io),
        }
    }
}

/// The steps that set up the memory file system.
pub open spec fn setup_steps(tmp: Text) -> Seq<Step<Text>> {
    seq![
        must(Request::EnsureDir(tmp)),
        task(Task::MountTmp, Request::MountTmpfs(tmp)),
        task(Task::MakeTmpPrivate, Request::MakePrivate(tmp)),
    ]
}

/// The steps that take the memory file system away again.
pub open spec fn cleanup_steps(tmp: Text) -> Seq<Step<Text>> {
    seq![attempt(Request::Unmount(tmp)), attempt(Request::RemoveDir(tmp))]
}

/// Mounts the files of all modules by bind mounts.
pub open spec fn magic_mounted(rules: RulesView, tmp: Text, io: Io) -> Run<()> {
    magic_scanned(tmp, scanned(rules, io))
}

/// Goes on when the files are known.
pub open spec fn magic_scanned(tmp: Text, run: Run<Option<NodeView>>) -> Run<()> {
    match run.out {
        Outcome::Done(Some(root)) => magic_ready(tmp, root, perform(setup_steps(tmp), run.io)),
        Outcome::Done(None) => done(run.io, ()),
        Outcome::Fail(e) => fail(run.io, e),
        Outcome::Waiting => waiting(run.io),
    }
}

/// Goes on when the memory file system is there.
pub open spec fn magic_ready(tmp: Text, root: NodeView, run: Run<()>) -> Run<()> {
    match run.out {
        Outcome::Done(_) => magic_tried(
            tmp,
            mounted("/".spec_bytes(), tmp, root, false, run.io),
        ),
        Outcome::Fail(e) => fail(run.io, e),
        Outcome::Waiting => waiting(run.io),
    }
}

/// Goes on when the tree was mounted or mounting it failed: the memory file system is taken away
/// either way.
pub open spec fn magic_tried(tmp: Text, run: Run<()>) -> Run<()> {
    match run.out {
        Outcome::Done(_) => magic_cleaned(Ok(()), perform(cleanup_steps(tmp), run.io)),
        Outcome::Fail(e) => magic_cleaned(Err(e), perform(cleanup_steps(tmp), run.io)),
        Outcome::Waiting => waiting(run.io),
    }
}

/// Ends with the result that mounting the tree had.
pub open spec fn magic_cleaned(result: Result<(), Error<Text>>, run: Run<()>) -> Run<()> {
    match run.out {
        Outcome::Done(_) => match result {
            Ok(_) => done(run.io, ()),
            Err(e) => fail(run.io, e),
        },
        Outcome::Fail(e) => fail(run.io, e),
        Outcome::Waiting => waiting(run.io),
    }
}

/// Mounts all modules in the way that the flags ask for.
pub open spec fn modules_mounted(config: ConfigView, io: Io) -> Run<()> {
    mount_by_mode(config, mode_detected(config.overlay_flag, config.magic_flag, io))
}

/// Goes on when it is known how modules are mounted.
pub open spec fn mount_by_mode(config: ConfigView, run: Run<MountMode>) -> Run<()> {
    match run.out {
        Outcome::Done(MountMode::Magic) => magic_mounted(
            config.rules,
            config.mount_source,
            run.io,
        ),
        Outcome::Done(MountMode::OverlayFs) => overlays_mounted(
            config.rules,
            config.overlay_work_dir,
            run.io,
        ),
        Outcome::Fail(e) => fail(run.io, e),
        Outcome::Waiting => waiting(run.io),
    }
}

/// Takes overlays back: all of them and their directories where modules are mounted that way, and
/// those that are left from before a change of mode where they are not. Bind mounts need nothing of
/// the kind: without an overlay that is left, nothing is changed.
pub open spec fn modules_unmounted(config: ConfigView, io: Io) -> Run<()> {
    unmount_by_mode(config, mode_detected(config.overlay_flag, config.magic_flag, io))
}

/// Goes on when it is known how modules are mounted.
pub open spec fn unmount_by_mode(config: ConfigView, run: Run<MountMode>) -> Run<()> {
    match run.out {
        Outcome::Done(MountMode::Magic) => leftovers_unmounted(config.overlay_work_dir, run.io),
        Outcome::Done(MountMode::OverlayFs) => overlays_unmounted(config.overlay_work_dir, run.io),
        Outcome::Fail(e) => fail(run.io, e),
        Outcome::Waiting => waiting(run.io),
    }
}

/// A question how modules are mounted.
pub struct Detecting {
    magic_flag: Vec<u8>,
    no_overlay: bool,
}

impl Machine for Detecting {
    type Value = MountMode;

    closed spec fn after(self, reply: ReplyView, io: Io) -> Run<MountMode> {
        if self.no_overlay {
            done(io, MountMode::Magic)
        } else {
            mode_by_overlay(self.magic_flag@, reply, io)
        }
    }
}

impl MountMode {
    /// Starts to find out how modules are mounted.
    pub fn detect(overlay_flag: &[u8], magic_flag: &[u8]) -> (turn: Turn<Detecting>)
        ensures
            forall|io: Io| #[trigger]
                turn.means(io) == mode_detected(overlay_flag@, magic_flag@, io),
    {
        Turn::Ask(
            Request::Exists(copied(overlay_flag)),
            Detecting { magic_flag: copied(magic_flag), no_overlay: false },
        )
    }
}

impl Detecting {
    /// Goes on with the host's reply.
    pub fn resume(self, reply: Reply) -> (turn: Turn<Detecting>)
        ensures
            forall|io: Io| #[trigger] turn.means(io) == self.after(reply@, io),
    {
        if self.no_overlay {
            Turn::Done(MountMode::Magic)
        } else if reply.into_flag() {
            Turn::Done(MountMode::OverlayFs)
        } else {
            let request = Request::Exists(copied(self.magic_flag.as_slice()));
            Turn::Ask(request, Detecting { magic_flag: self.magic_flag, no_overlay: true })
        }
    }
}

/// Modules that are being mounted by bind mounts.
pub struct MagicMounting {
    tmp: Vec<u8>,
    stage: MagicStage,
}

enum MagicStage {
    Scanning(Scanning),
    Preparing(Script, Node),
    Mounting(Mounting),
    Cleaning(Script, Result<(), Error<Vec<u8>>>),
}

/// The view of a result.
pub open spec fn result_view(result: Result<(), Error<Vec<u8>>>) -> Result<(), Error<Text>> {
    match result {
        Ok(_) => Ok(()),
        Err(e) => Err(e@),
    }
}

impl Machine for MagicMounting {
    type Value = ();

    closed spec fn after(self, reply: ReplyView, io: Io) -> Run<()> {
        let tmp = self.tmp@;
        match self.stage {
            MagicStage::Scanning(scanning) => magic_scanned(tmp, scanning.after(reply, io)),
            MagicStage::Preparing(script, root) => magic_ready(
                tmp,
                root@,
                script.after(reply, io),
            ),
            MagicStage::Mounting(mounting) => magic_tried(tmp, mounting.after(reply, io)),
            MagicStage::Cleaning(script, result) => magic_cleaned(
                result_view(result),
                script.after(reply, io),
            ),
        }
    }
}

/// The steps that set up the memory file system.
fn setup_list(tmp: &[u8]) -> (steps: Vec<Step<Vec<u8>>>)
    ensures
        steps_view(steps@) == setup_steps(tmp@),
{
    let mut steps: Vec<Step<Vec<u8>>> = Vec::new();
    steps.push(must_succeed(Request::EnsureDir(copied(tmp))));
    steps.push(do_task(Task::MountTmp, Request::MountTmpfs(copied(tmp))));
    steps.push(do_task(Task::MakeTmpPrivate, Request::MakePrivate(copied(tmp))));
    assert(steps_view(steps@) =~= setup_steps(tmp@));
    steps
}

/// The steps that take the memory file system away again.
fn cleanup_list(tmp: &[u8]) -> (steps: Vec<Step<Vec<u8>>>)
    ensures
        steps_view(steps@) == cleanup_steps(tmp@),
{
    let mut steps: Vec<Step<Vec<u8>>> = Vec::new();
    steps.push(may_fail(Request::Unmount(copied(tmp))));
    steps.push(may_fail(Request::RemoveDir(copied(tmp))));
    assert(steps_view(steps@) =~= cleanup_steps(tmp@));
    steps
}

/// Modules from where their files are collected.
fn magic_from_scan(tmp: Vec<u8>, turn: Turn<Scanning>) -> (result: Turn<MagicMounting>)
    ensures
        forall|io: Io| #[trigger] result.means(io) == magic_scanned(tmp@, turn.means(io)),
{
    match turn {
        Turn::Ask(request, scanning) => Turn::Ask(
            request,
            MagicMounting { tmp, stage: MagicStage::Scanning(scanning) },
        ),
        Turn::Done(MaybeNode(Some(root))) => {
            let steps = setup_list(tmp.as_slice());
            magic_from_setup(tmp, root, perform_steps(steps))
        },
        Turn::Done(MaybeNode(None)) => Turn::Done(()),
        Turn::Fail(e) => Turn::Fail(e),
    }
}

/// Modules from where the memory file system is set up.
fn magic_from_setup(tmp: Vec<u8>, root: Node, turn: Turn<Script>) -> (result: Turn<MagicMounting>)
    ensures
        forall|io: Io| #[trigger] result.means(io) == magic_ready(
            tmp@,
            root@,
            turn.means(io),
        ),
{
    match turn {
        Turn::Ask(request, script) => Turn::Ask(
            request,
            MagicMounting { tmp, stage: MagicStage::Preparing(script, root) },
        ),
        Turn::Done(_) => {
            let turn = do_magic_mount("/".as_bytes(), tmp.as_slice(), root, false);
            magic_from_mount(tmp, turn)
        },
        Turn::Fail(e) => Turn::Fail(e),
    }
}

/// Modules from where the tree is mounted.
fn magic_from_mount(tmp: Vec<u8>, turn: Turn<Mounting>) -> (result: Turn<MagicMounting>)
    ensures
        forall|io: Io| #[trigger] result.means(io) == magic_tried(tmp@, turn.means(io)),
{
    match turn {
        Turn::Ask(request, mounting) => Turn::Ask(
            request,
            MagicMounting { tmp, stage: MagicStage::Mounting(mounting) },
        ),
        Turn::Done(_) => {
            let steps = cleanup_list(tmp.as_slice());
            magic_from_cleanup(tmp, Ok(()), perform_steps(steps))
        },
        Turn::Fail(e) => {
            let steps = cleanup_list(tmp.as_slice());
            magic_from_cleanup(tmp, Err(e), perform_steps(steps))
        },
    }
}

/// Modules from where the memory file system is taken away.
fn magic_from_cleanup(
    tmp: Vec<u8>,
    outcome: Result<(), Error<Vec<u8>>>,
    turn: Turn<Script>,
) -> (result: Turn<MagicMounting>)
    ensures
        forall|io: Io| #[trigger] result.means(io) == magic_cleaned(
            result_view(outcome),
            turn.means(io),
        ),
{
    match turn {
        Turn::Ask(request, script) => Turn::Ask(
            request,
            MagicMounting { tmp, stage: MagicStage::Cleaning(script, outcome) },
        ),
        Turn::Done(_) => match outcome {
            Ok(_) => Turn::Done(()),
            Err(e) => Turn::Fail(e),
        },
        Turn::Fail(e) => Turn::Fail(e),
    }
}

/// Starts to mount the files of all modules by bind mounts.
pub fn magic_mount(config: Config) -> (turn: Turn<MagicMounting>)
    ensures
        forall|io: Io| #[trigger]
            turn.means(io) == magic_mounted(config@.rules, config@.mount_source, io),
{
    magic_from_scan(config.mount_source, collect_module_files(config.rules))
}

impl MagicMounting {
    /// Goes on with the host's reply.
    pub fn resume(self, reply: Reply) -> (turn: Turn<MagicMounting>)
        ensures
            forall|io: Io| #[trigger] turn.means(io) == self.after(reply@, io),
    {
        match self.stage {
            MagicStage::Scanning(scanning) => magic_from_scan(self.tmp, scanning.resume(reply)),
            MagicStage::Preparing(script, root) => magic_from_setup(
                self.tmp,
                root,
                script.resume(reply),
            ),
            MagicStage::Mounting(mounting) => magic_from_mount(self.tmp, mounting.resume(reply)),
            MagicStage::Cleaning(script, result) => magic_from_cleanup(
                self.tmp,
                result,
                script.resume(reply),
            ),
        }
    }
}

/// Modules that are being mounted.
pub struct MountSession {
    stage: MountSessionStage,
}

enum MountSessionStage {
    Detecting(Detecting, Config),
    Magic(MagicMounting),
    Overlay(OverlayMounting),
}

impl Machine for MountSession {
    type Value = ();

    closed spec fn after(self, reply: ReplyView, io: Io) -> Run<()> {
        match self.stage {
            MountSessionStage::Detecting(detecting, config) => mount_by_mode(
                config@,
                detecting.after(reply, io),
            ),
            MountSessionStage::Magic(mounting) => mounting.after(reply, io),
            MountSessionStage::Overlay(mounting) => mounting.after(reply, io),
        }
    }
}

/// The modules from where it is found out how they are mounted.
fn mount_detected(config: Config, turn: Turn<Detecting>) -> (result: Turn<MountSession>)
    ensures
        forall|io: Io| #[trigger] result.means(io) == mount_by_mode(config@, turn.means(io)),
{
    match turn {
        Turn::Ask(request, detecting) => Turn::Ask(
            request,
            MountSession { stage: MountSessionStage::Detecting(detecting, config) },
        ),
        Turn::Done(MountMode::Magic) => mount_magic(magic_mount(config)),
        Turn::Done(MountMode::OverlayFs) => mount_overlay(
            do_overlayfs_mount(config.rules, config.overlay_work_dir),
        ),
        Turn::Fail(e) => Turn::Fail(e),
    }
}

/// The modules while they are mounted by bind mounts.
fn mount_magic(turn: Turn<MagicMounting>) -> (result: Turn<MountSession>)
    ensures
        forall|io: Io| #[trigger] result.means(io) == turn.means(io),
{
    match turn {
        Turn::Ask(request, mounting) => Turn::Ask(
            request,
            MountSession { stage: MountSessionStage::Magic(mounting) },
        ),
        Turn::Done(_) => Turn::Done(()),
        Turn::Fail(e) => Turn::Fail(e),
    }
}

/// The modules while they are mounted by overlay file systems.
fn mount_overlay(turn: Turn<OverlayMounting>) -> (result: Turn<MountSession>)
    ensures
        forall|io: Io| #[trigger] result.means(io) == turn.means(io),
{
    match turn {
        Turn::Ask(request, mounting) => Turn::Ask(
            request,
            MountSession { stage: MountSessionStage::Overlay(mounting) },
        ),
        Turn::Done(_) => Turn::Done(()),
        Turn::Fail(e) => Turn::Fail(e),
    }
}

/// Starts to mount all modules in the way that the flags ask for.
pub fn mount_modules(config: Config) -> (turn: Turn<MountSession>)
    ensures
        forall|io: Io| #[trigger] turn.means(io) == modules_mounted(config@, io),
{
    let turn = MountMode::detect(config.overlay_flag.as_slice(), config.magic_flag.as_slice());
    mount_detected(config, turn)
}

impl MountSession {
    /// Goes on with the host's reply.
    pub fn resume(self, reply: Reply) -> (turn: Turn<MountSession>)
        ensures
            forall|io: Io| #[trigger] turn.means(io) == self.after(reply@, io),
    {
        match self.stage {
            MountSessionStage::Detecting(detecting, config) => mount_detected(
                config,
                detecting.resume(reply),
            ),
            MountSessionStage::Magic(mounting) => mount_magic(mounting.resume(reply)),
            MountSessionStage::Overlay(mounting) => mount_overlay(mounting.resume(reply)),
        }
    }
}

/// Overlays that are being taken back.
pub struct UnmountSession {
    stage: UnmountSessionStage,
}

enum UnmountSessionStage {
    Detecting(Detecting, Config),
    Overlay(OverlayUnmounting),
}

impl Machine for UnmountSession {
    type Value = ();

    closed spec fn after(self, reply: ReplyView, io: Io) -> Run<()> {
        match self.stage {
            UnmountSessionStage::Detecting(detecting, config) => unmount_by_mode(
                config@,
                detecting.after(reply, io),
            ),
            UnmountSessionStage::Overlay(unmounting) => unmounting.after(reply, io),
        }
    }
}

/// The overlays from where it is found out how modules are mounted.
fn unmount_detected(config: Config, turn: Turn<Detecting>) -> (result: Turn<UnmountSession>)
    ensures
        forall|io: Io| #[trigger] result.means(io) == unmount_by_mode(config@, turn.means(io)),
{
    match turn {
        Turn::Ask(request, detecting) => Turn::Ask(
            request,
            UnmountSession { stage: UnmountSessionStage::Detecting(detecting, config) },
        ),
        Turn::Done(MountMode::Magic) => unmount_overlay(unmount_leftovers(config.overlay_work_dir)),
        Turn::Done(MountMode::OverlayFs) => unmount_overlay(
            unmount_overlayfs(config.overlay_work_dir),
        ),
        Turn::Fail(e) => Turn::Fail(e),
    }
}

/// The overlays while they are taken back.
fn unmount_overlay(turn: Turn<OverlayUnmounting>) -> (result: Turn<UnmountSession>)
    ensures
        forall|io: Io| #[trigger] result.means(io) == turn.means(io),
{
    match turn {
        Turn::Ask(request, unmounting) => Turn::Ask(
            request,
            UnmountSession { stage: UnmountSessionStage::Overlay(unmounting) },
        ),
        Turn::Done(_) => Turn::Done(()),
        Turn::Fail(e) => Turn::Fail(e),
    }
}

/// Starts to take back all overlays: those of now, or those that are left from before a change to
/// bind mounts.
pub fn unmount_all(config: Config) -> (turn: Turn<UnmountSession>)
    ensures
        forall|io: Io| #[trigger] turn.means(io) == modules_unmounted(config@, io),
{
    let turn = MountMode::detect(config.overlay_flag.as_slice(), config.magic_flag.as_slice());
    unmount_detected(config, turn)
}

impl UnmountSession {
    /// Goes on with the host's reply.
    pub fn resume(self, reply: Reply) -> (turn: Turn<UnmountSession>)
        ensures
            forall|io: Io| #[trigger] turn.means(io) == self.after(reply@, io),
    {
        match self.stage {
            UnmountSessionStage::Detecting(detecting, config) => unmount_detected(
                config,
                detecting.resume(reply),
            ),
            UnmountSessionStage::Overlay(unmounting) => unmount_overlay(unmounting.resume(reply)),
        }
    }
}

} // verus!
