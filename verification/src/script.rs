//! Sequences of calls that stop at the first failure.
//!
//! A [`Step`] is a request together with what its reply is needed for. Performing a step may put
//! further steps in front of those that remain: the target of a link has to be read before the
//! link can be made again, and a directory has to be listed before its entries can be mirrored.

use vstd::prelude::*;

use crate::bytes::{copied, join, joined};
use crate::protocol::{
    ask, data_of, done, done_of, entries_view, fail, flag_of, listing_of, stat_of, waiting, Entry,
    in_task, Error, FileKind, Io, Machine, Outcome, Reply, ReplyView, Request, Run, Task, Text,
    Turn,
};

verus! {

/// What the reply to a request is needed for.
#[derive(Debug, PartialEq, Eq)]
pub enum Purpose<S> {
    /// The call has to succeed.
    Success,
    /// The call has to succeed, and the task is named if it does not.
    Task(Task<S>),
    /// It does not matter whether the call succeeds.
    Attempt,
    /// The metadata of `source` is to be given to `target`, and then its label.
    Attributes { source: S, target: S },
    /// The label is to be given to `target`.
    Label { target: S },
    /// The link `source` is to be made again at `target`, and then given its label.
    Link { source: S, target: S },
    /// The entries of `source` are to be mirrored in `target`.
    Mirror { source: S, target: S },
    /// `work` is to get the attributes of `path` if that exists, else those of the module's
    /// directory.
    Skeleton { path: S, work: S, origin: Option<S> },
}

/// One step of a script.
#[derive(Debug, PartialEq, Eq)]
pub enum Step<S> {
    /// Ask the host, for a purpose.
    Ask(Request<S>, Purpose<S>),
    /// Give up.
    Abort(Error<S>),
}

impl View for Purpose<Vec<u8>> {
    type V = Purpose<Text>;

    open spec fn view(&self) -> Purpose<Text> {
        match self {
            Purpose::Success => Purpose::Success,
            Purpose::Task(task) => Purpose::Task(task@),
            Purpose::Attempt => Purpose::Attempt,
            Purpose::Attributes { source, target } => Purpose::Attributes {
                source: source@,
                target: target@,
            },
            Purpose::Label { target } => Purpose::Label { target: target@ },
            Purpose::Link { source, target } => Purpose::Link { source: source@, target: target@ },
            Purpose::Mirror { source, target } => Purpose::Mirror {
                source: source@,
                target: target@,
            },
            Purpose::Skeleton { path, work, origin } => Purpose::Skeleton {
                path: path@,
                work: work@,
                origin: text_of(*origin),
            },
        }
    }
}

impl View for Step<Vec<u8>> {
    type V = Step<Text>;

    open spec fn view(&self) -> Step<Text> {
        match self {
            Step::Ask(request, purpose) => Step::Ask(request@, purpose@),
            Step::Abort(error) => Step::Abort(error@),
        }
    }
}

/// The view of a path that may be missing.
pub open spec fn text_of(path: Option<Vec<u8>>) -> Option<Text> {
    match path {
        Some(p) => Some(p@),
        None => None,
    }
}

/// The views of the steps of a list.
pub open spec fn steps_view(steps: Seq<Step<Vec<u8>>>) -> Seq<Step<Text>> {
    steps.map_values(|s: Step<Vec<u8>>| s@)
}

/// A call that has to succeed.
pub open spec fn must<S>(request: Request<S>) -> Step<S> {
    Step::Ask(request, Purpose::Success)
}

/// A call that has to succeed as part of a task.
pub open spec fn task<S>(task: Task<S>, request: Request<S>) -> Step<S> {
    Step::Ask(request, Purpose::Task(task))
}

/// A call whose failure does not matter.
pub open spec fn attempt<S>(request: Request<S>) -> Step<S> {
    Step::Ask(request, Purpose::Attempt)
}

/// Give `target` the permissions, the owner and the label of `source`.
pub open spec fn copy_attributes_step(follow: bool, source: Text, target: Text) -> Step<Text> {
    Step::Ask(
        if follow {
            Request::Stat(source)
        } else {
            Request::Lstat(source)
        },
        Purpose::Attributes { source, target },
    )
}

/// Give `target` the label of `source`.
pub open spec fn copy_label_step(source: Text, target: Text) -> Step<Text> {
    Step::Ask(Request::GetLabel(source), Purpose::Label { target })
}

/// Make the link `source` again at `target`.
pub open spec fn clone_symlink_step(source: Text, target: Text) -> Step<Text> {
    Step::Ask(Request::ReadLink(source), Purpose::Link { source, target })
}

/// Mirror the entries of `source` in `target`.
pub open spec fn mirror_dir_step(source: Text, target: Text) -> Step<Text> {
    Step::Ask(Request::ListDir(source), Purpose::Mirror { source, target })
}

/// The steps that mirror one entry of the directory `path` in the directory `work`: a file is
/// bound, a directory is built again with the same attributes and filled in the same way, a
/// symbolic link is made again, and anything else is left out.
pub open spec fn mirror_steps(path: Text, work: Text, entry: Entry<Text>) -> Seq<Step<Text>> {
    let source = joined(path, entry.name);
    let target = joined(work, entry.name);
    match entry.kind {
        Err(id) => seq![Step::Abort(Error::Failed(id))],
        Ok(FileKind::File) => seq![
            must(Request::CreateFile(target)),
            must(Request::BindMount { source, target }),
        ],
        Ok(FileKind::Dir) => seq![
            must(Request::CreateDir(target)),
            copy_attributes_step(false, source, target),
            mirror_dir_step(source, target),
        ],
        Ok(FileKind::Symlink) => seq![clone_symlink_step(source, target)],
        Ok(_) => Seq::empty(),
    }
}

/// The steps that mirror several entries one after the other.
pub open spec fn mirror_all(path: Text, work: Text, entries: Seq<Entry<Text>>) -> Seq<Step<Text>>
    decreases entries.len(),
{
    if entries.len() == 0 {
        Seq::empty()
    } else {
        mirror_steps(path, work, entries[0]) + mirror_all(path, work, entries.drop_first())
    }
}

/// The steps that build the directory `work` in the likeness of `path`.
pub open spec fn skeleton_steps(path: Text, work: Text, origin: Option<Text>) -> Seq<
    Step<Text>,
> {
    seq![
        must(Request::CreateDirAll(work)),
        Step::Ask(Request::Exists(path), Purpose::Skeleton { path, work, origin }),
    ]
}

/// The permission bits of an `st_mode` field: all but the four that tell the file type.
pub open spec fn permissions(st_mode: u32) -> u32 {
    st_mode & !0xf000u32
}

/// What a reply leads to: the steps to take next, or the error to give up with.
pub open spec fn consequence(purpose: Purpose<Text>, reply: ReplyView) -> Result<
    Seq<Step<Text>>,
    Error<Text>,
> {
    match purpose {
        Purpose::Success => match done_of(reply) {
            Ok(_) => Ok(Seq::empty()),
            Err(e) => Err(e),
        },
        Purpose::Task(task) => match done_of(reply) {
            Ok(_) => Ok(Seq::empty()),
            Err(e) => Err(in_task(task, e)),
        },
        Purpose::Attempt => Ok(Seq::empty()),
        Purpose::Attributes { source, target } => match stat_of(reply) {
            Ok(m) => Ok(
                seq![
                    must(Request::SetMode { path: target, mode: permissions(m.mode) }),
                    must(Request::SetOwner { path: target, uid: m.uid, gid: m.gid }),
                    copy_label_step(source, target),
                ],
            ),
            Err(e) => Err(e),
        },
        Purpose::Label { target } => match data_of(reply) {
            Ok(label) => Ok(seq![must(Request::SetLabel { path: target, label })]),
            Err(e) => Err(e),
        },
        Purpose::Link { source, target } => match data_of(reply) {
            Ok(points_to) => Ok(
                seq![
                    must(Request::MakeSymlink { target: points_to, link: target }),
                    copy_label_step(source, target),
                ],
            ),
            Err(e) => Err(e),
        },
        Purpose::Mirror { source, target } => match listing_of(reply) {
            Ok(entries) => Ok(mirror_all(source, target, entries)),
            Err(e) => Err(e),
        },
        Purpose::Skeleton { path, work, origin } => if flag_of(reply) {
            Ok(seq![copy_attributes_step(true, path, work)])
        } else {
            match origin {
                Some(m) => Ok(seq![copy_attributes_step(true, m, work)]),
                None => Err(Error::RootDir(path)),
            }
        },
    }
}

/// Performs the steps in order and stops at the first failure.
pub open spec fn perform(steps: Seq<Step<Text>>, io: Io) -> Run<()>
    decreases io.rest.len(), 0nat,
{
    if steps.len() == 0 {
        done(io, ())
    } else {
        match steps[0] {
            Step::Abort(e) => fail(io, e),
            Step::Ask(request, purpose) => {
                let run = ask(io, request);
                match run.out {
                    Outcome::Done(reply) => perform_reply(
                        purpose,
                        steps.drop_first(),
                        reply,
                        run.io,
                    ),
                    Outcome::Fail(e) => fail(run.io, e),
                    Outcome::Waiting => waiting(run.io),
                }
            },
        }
    }
}

/// Goes on with a reply: what it leads to comes before the steps that remain.
pub open spec fn perform_reply(
    purpose: Purpose<Text>,
    remaining: Seq<Step<Text>>,
    reply: ReplyView,
    io: Io,
) -> Run<()>
    decreases io.rest.len(), 1nat,
{
    match consequence(purpose, reply) {
        Ok(more) => perform(more + remaining, io),
        Err(e) => fail(io, e),
    }
}

/// `rustix::fs::Mode::from_raw_mode` followed by `Mode::as_raw_mode`. Claimed: the bits that
/// `S_IFMT` covers are cleared and all others are kept.
#[verifier::external_body]
fn raw_permissions(st_mode: u32) -> (bits: u32)
    ensures
        bits == st_mode & !0xf000u32,
{
    rustix::fs::Mode::from_raw_mode(st_mode).as_raw_mode()
}

/// A call that has to succeed.
pub fn must_succeed(request: Request<Vec<u8>>) -> (step: Step<Vec<u8>>)
    ensures
        step@ == must(request@),
{
    Step::Ask(request, Purpose::Success)
}

/// A call that has to succeed as part of a task.
pub fn do_task(task: Task<Vec<u8>>, request: Request<Vec<u8>>) -> (step: Step<Vec<u8>>)
    ensures
        step@ == self::task(task@, request@),
{
    Step::Ask(request, Purpose::Task(task))
}

/// A call whose failure does not matter.
pub fn may_fail(request: Request<Vec<u8>>) -> (step: Step<Vec<u8>>)
    ensures
        step@ == attempt(request@),
{
    Step::Ask(request, Purpose::Attempt)
}

/// The step that gives `target` the permissions, the owner and the label of `source`.
pub fn copy_attributes(follow: bool, source: &[u8], target: &[u8]) -> (step: Step<Vec<u8>>)
    ensures
        step@ == copy_attributes_step(follow, source@, target@),
{
    let request = if follow {
        Request::Stat(copied(source))
    } else {
        Request::Lstat(copied(source))
    };
    Step::Ask(request, Purpose::Attributes { source: copied(source), target: copied(target) })
}

/// The step that gives `target` the label of `source`.
pub fn copy_label(source: &[u8], target: &[u8]) -> (step: Step<Vec<u8>>)
    ensures
        step@ == copy_label_step(source@, target@),
{
    Step::Ask(Request::GetLabel(copied(source)), Purpose::Label { target: copied(target) })
}

/// The step that makes the link `source` again at `target`, with its label.
pub fn clone_symlink(source: &[u8], target: &[u8]) -> (step: Step<Vec<u8>>)
    ensures
        step@ == clone_symlink_step(source@, target@),
{
    Step::Ask(
        Request::ReadLink(copied(source)),
        Purpose::Link { source: copied(source), target: copied(target) },
    )
}

/// The step that mirrors the entries of `source` in `target`.
pub fn mirror_dir(source: &[u8], target: &[u8]) -> (step: Step<Vec<u8>>)
    ensures
        step@ == mirror_dir_step(source@, target@),
{
    Step::Ask(
        Request::ListDir(copied(source)),
        Purpose::Mirror { source: copied(source), target: copied(target) },
    )
}

/// A script that waits for a reply. The steps that remain are kept with the next one last.
pub struct Script {
    purpose: Purpose<Vec<u8>>,
    remaining: Vec<Step<Vec<u8>>>,
}

/// The steps that a stack holds, the topmost first.
pub open spec fn stacked(stack: Seq<Step<Vec<u8>>>) -> Seq<Step<Text>> {
    steps_view(stack).reverse()
}

impl Machine for Script {
    type Value = ();

    closed spec fn after(self, reply: ReplyView, io: Io) -> Run<()> {
        perform_reply(self.purpose@, stacked(self.remaining@), reply, io)
    }
}

/// Pushing a step puts it in front.
proof fn lemma_stacked_push(stack: Seq<Step<Vec<u8>>>, step: Step<Vec<u8>>)
    ensures
        stacked(stack.push(step)) == seq![step@] + stacked(stack),
        stacked(stack.push(step)).drop_first() == stacked(stack),
{
    assert(stacked(stack.push(step)) =~= seq![step@] + stacked(stack));
    assert(stacked(stack.push(step)).drop_first() =~= stacked(stack));
}

/// Puts the steps that mirror `entry` on top of a stack.
fn push_mirror_steps(
    stack: &mut Vec<Step<Vec<u8>>>,
    path: &[u8],
    work: &[u8],
    entry: &Entry<Vec<u8>>,
)
    ensures
        stacked(final(stack)@) == mirror_steps(path@, work@, entry@) + stacked(old(stack)@),
{
    let ghost start = stack@;
    let source = join(path, entry.name.as_slice());
    let target = join(work, entry.name.as_slice());
    match entry.kind {
        Err(id) => {
            let step = Step::Abort(Error::Failed(id));
            proof {
                lemma_stacked_push(start, step);
            }
            stack.push(step);
        },
        Ok(FileKind::File) => {
            let create = must_succeed(Request::CreateFile(copied(target.as_slice())));
            let bind = must_succeed(Request::BindMount { source, target });
            proof {
                lemma_stacked_push(start, bind);
                lemma_stacked_push(start.push(bind), create);
            }
            stack.push(bind);
            stack.push(create);
        },
        Ok(FileKind::Dir) => {
            let create = must_succeed(Request::CreateDir(copied(target.as_slice())));
            let attributes = copy_attributes(false, source.as_slice(), target.as_slice());
            let entries = mirror_dir(source.as_slice(), target.as_slice());
            proof {
                lemma_stacked_push(start, entries);
                lemma_stacked_push(start.push(entries), attributes);
                lemma_stacked_push(start.push(entries).push(attributes), create);
            }
            stack.push(entries);
            stack.push(attributes);
            stack.push(create);
        },
        Ok(FileKind::Symlink) => {
            let link = clone_symlink(source.as_slice(), target.as_slice());
            proof {
                lemma_stacked_push(start, link);
            }
            stack.push(link);
        },
        Ok(_) => {},
    }
    assert(stacked(stack@) =~= mirror_steps(path@, work@, entry@) + stacked(start));
}

/// Puts the steps that mirror all `entries` on top of a stack.
fn push_mirror_all(
    stack: &mut Vec<Step<Vec<u8>>>,
    path: &[u8],
    work: &[u8],
    entries: &Vec<Entry<Vec<u8>>>,
)
    ensures
        stacked(final(stack)@) == mirror_all(path@, work@, entries_view(entries@)) + stacked(
            old(stack)@,
        ),
{
    let ghost start = stack@;
    let ghost all = entries_view(entries@);
    let mut i: usize = entries.len();
    assert(all.skip(all.len() as int) =~= Seq::empty());
    assert(stacked(stack@) =~= mirror_all(path@, work@, all.skip(i as int)) + stacked(start));
    while i > 0
        invariant
            i <= entries.len(),
            all == entries_view(entries@),
            stacked(stack@) == mirror_all(path@, work@, all.skip(i as int)) + stacked(start),
        decreases i,
    {
        i -= 1;
        let ghost before = stack@;
        push_mirror_steps(stack, path, work, &entries[i]);
        proof {
            let here = all.skip(i as int);
            assert(here[0] == entries@[i as int]@);
            assert(here.drop_first() =~= all.skip(i + 1));
            assert(stacked(stack@) =~= mirror_all(path@, work@, here) + stacked(start));
        }
    }
    assert(all.skip(0) =~= all);
}

/// Performs the steps on a stack, the topmost first.
fn run_stack(stack: Vec<Step<Vec<u8>>>) -> (turn: Turn<Script>)
    ensures
        forall|io: Io| #[trigger] turn.means(io) == perform(stacked(stack@), io),
{
    let ghost all = stack@;
    let mut stack = stack;
    match stack.pop() {
        None => {
            assert(stacked(all) =~= Seq::empty());
            Turn::Done(())
        },
        Some(step) => {
            proof {
                assert(all =~= stack@.push(step));
                lemma_stacked_push(stack@, step);
            }
            match step {
                Step::Abort(error) => Turn::Fail(error),
                Step::Ask(request, purpose) => Turn::Ask(
                    request,
                    Script { purpose, remaining: stack },
                ),
            }
        },
    }
}

/// Starts to perform the steps of a list, the first one first.
pub fn perform_steps(steps: Vec<Step<Vec<u8>>>) -> (turn: Turn<Script>)
    ensures
        forall|io: Io| #[trigger] turn.means(io) == perform(steps_view(steps@), io),
{
    let ghost all = steps@;
    let mut steps = steps;
    let mut stack: Vec<Step<Vec<u8>>> = Vec::new();
    assert(all.skip(all.len() as int) =~= Seq::empty());
    assert(stacked(stack@) =~= steps_view(all.skip(all.len() as int)));
    while steps.len() > 0
        invariant
            steps@.len() <= all.len(),
            steps@ == all.take(steps@.len() as int),
            stacked(stack@) == steps_view(all.skip(steps@.len() as int)),
        decreases steps@.len(),
    {
        let ghost n = steps@.len();
        match steps.pop() {
            Some(step) => {
                proof {
                    lemma_stacked_push(stack@, step);
                    assert(all.skip(n - 1) =~= seq![step] + all.skip(n as int));
                    assert(steps_view(all.skip(n - 1)) =~= seq![step@] + steps_view(
                        all.skip(n as int),
                    ));
                    assert(steps@ =~= all.take(n - 1));
                }
                stack.push(step);
            },
            None => {},
        }
    }
    assert(all.skip(0) =~= all);
    run_stack(stack)
}

/// Starts to mirror one entry of the directory `path` in the directory `work`.
pub fn mount_mirror(path: &[u8], work: &[u8], entry: &Entry<Vec<u8>>) -> (turn: Turn<Script>)
    ensures
        forall|io: Io| #[trigger]
            turn.means(io) == perform(mirror_steps(path@, work@, entry@), io),
{
    let mut stack: Vec<Step<Vec<u8>>> = Vec::new();
    push_mirror_steps(&mut stack, path, work, entry);
    assert(stacked(stack@) =~= mirror_steps(path@, work@, entry@));
    run_stack(stack)
}

/// The steps that build the directory `work` in the likeness of `path`, or of the module's
/// directory where `path` does not exist.
pub fn prepare_tmpfs_skeleton(path: &[u8], work: &[u8], origin: Option<Vec<u8>>) -> (steps: Vec<
    Step<Vec<u8>>,
>)
    ensures
        steps_view(steps@) == skeleton_steps(path@, work@, text_of(origin)),
{
    let mut steps: Vec<Step<Vec<u8>>> = Vec::new();
    steps.push(must_succeed(Request::CreateDirAll(copied(work))));
    steps.push(
        Step::Ask(
            Request::Exists(copied(path)),
            Purpose::Skeleton { path: copied(path), work: copied(work), origin },
        ),
    );
    assert(steps_view(steps@) =~= skeleton_steps(path@, work@, text_of(origin)));
    steps
}

impl Script {
    /// Goes on with the host's reply.
    pub fn resume(self, reply: Reply) -> (turn: Turn<Script>)
        ensures
            forall|io: Io| #[trigger] turn.means(io) == self.after(reply@, io),
    {
        let ghost rest = stacked(self.remaining@);
        let mut stack = self.remaining;
        let ghost start = stack@;
        match self.purpose {
            Purpose::Success => match reply.into_done() {
                Ok(_) => {
                    assert(Seq::<Step<Text>>::empty() + rest =~= rest);
                    run_stack(stack)
                },
                Err(e) => Turn::Fail(e),
            },
            Purpose::Task(task) => match reply.into_done() {
                Ok(_) => {
                    assert(Seq::<Step<Text>>::empty() + rest =~= rest);
                    run_stack(stack)
                },
                Err(e) => Turn::Fail(Error::Within(task, Box::new(e))),
            },
            Purpose::Attempt => {
                assert(Seq::<Step<Text>>::empty() + rest =~= rest);
                run_stack(stack)
            },
            Purpose::Attributes { source, target } => match reply.into_stat() {
                Ok(m) => {
                    let mode = must_succeed(
                        Request::SetMode {
                            path: copied(target.as_slice()),
                            mode: raw_permissions(m.mode),
                        },
                    );
                    let owner = must_succeed(
                        Request::SetOwner {
                            path: copied(target.as_slice()),
                            uid: m.uid,
                            gid: m.gid,
                        },
                    );
                    let label = copy_label(source.as_slice(), target.as_slice());
                    proof {
                        lemma_stacked_push(start, label);
                        lemma_stacked_push(start.push(label), owner);
                        lemma_stacked_push(start.push(label).push(owner), mode);
                        assert(stacked(start.push(label).push(owner).push(mode)) =~= seq![
                            mode@,
                            owner@,
                            label@,
                        ] + rest);
                    }
                    stack.push(label);
                    stack.push(owner);
                    stack.push(mode);
                    run_stack(stack)
                },
                Err(e) => Turn::Fail(e),
            },
            Purpose::Label { target } => match reply.into_data() {
                Ok(label) => {
                    let step = must_succeed(Request::SetLabel { path: target, label });
                    proof {
                        lemma_stacked_push(start, step);
                    }
                    stack.push(step);
                    run_stack(stack)
                },
                Err(e) => Turn::Fail(e),
            },
            Purpose::Link { source, target } => match reply.into_data() {
                Ok(points_to) => {
                    let label = copy_label(source.as_slice(), target.as_slice());
                    let link = must_succeed(
                        Request::MakeSymlink { target: points_to, link: target },
                    );
                    proof {
                        lemma_stacked_push(start, label);
                        lemma_stacked_push(start.push(label), link);
                        assert(stacked(start.push(label).push(link)) =~= seq![
                            link@,
                            label@,
                        ] + rest);
                    }
                    stack.push(label);
                    stack.push(link);
                    run_stack(stack)
                },
                Err(e) => Turn::Fail(e),
            },
            Purpose::Mirror { source, target } => match reply.into_listing() {
                Ok(entries) => {
                    push_mirror_all(&mut stack, source.as_slice(), target.as_slice(), &entries);
                    run_stack(stack)
                },
                Err(e) => Turn::Fail(e),
            },
            Purpose::Skeleton { path, work, origin } => {
                if reply.into_flag() {
                    let step = copy_attributes(true, path.as_slice(), work.as_slice());
                    proof {
                        lemma_stacked_push(start, step);
                    }
                    stack.push(step);
                    run_stack(stack)
                } else {
                    match origin {
                        Some(m) => {
                            let step = copy_attributes(true, m.as_slice(), work.as_slice());
                            proof {
                                lemma_stacked_push(start, step);
                            }
                            stack.push(step);
                            run_stack(stack)
                        },
                        None => Turn::Fail(Error::RootDir(path)),
                    }
                }
            },
        }
    }
}

} // verus!
