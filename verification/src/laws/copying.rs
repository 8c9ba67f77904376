//! What is copied is what the host told: the targets of links, permissions, owners and labels.

use vstd::prelude::*;

use crate::bytes::joined;
use crate::laws::conversation::{lemma_end, no_limits};
use crate::laws::finding::{lemma_truthful_ask, truthful, World};
use crate::laws::orderly::steps_are_orderly;
use crate::protocol::{ask, Error, FileKind, Io, Metadata, Outcome, ReplyView, Request, Text};
use crate::script::{
    clone_symlink_step, consequence, copy_attributes_step, copy_label_step, must, perform,
    perform_reply, Purpose, Step,
};

verus! {

/// A host on which all calls succeed that there is reason to make. It makes every change. It can
/// read every link, tell every label and what every path leads to, and list every directory with
/// the kinds of all entries. It can look at each directory that it has listed.
pub open spec fn obliging(world: World) -> bool {
    &&& forall|p: Text| #[trigger] world(Request::CreateFile(p)) == ReplyView::Done
    &&& forall|p: Text| #[trigger] world(Request::CreateDir(p)) == ReplyView::Done
    &&& forall|p: Text| #[trigger] world(Request::CreateDirAll(p)) == ReplyView::Done
    &&& forall|p: Text| #[trigger] world(Request::MakePrivate(p)) == ReplyView::Done
    &&& forall|target: Text, link: Text| #[trigger]
        world(Request::MakeSymlink { target, link }) == ReplyView::Done
    &&& forall|path: Text, mode: u32| #[trigger]
        world(Request::SetMode { path, mode }) == ReplyView::Done
    &&& forall|path: Text, uid: u32, gid: u32| #[trigger]
        world(Request::SetOwner { path, uid, gid }) == ReplyView::Done
    &&& forall|path: Text, label: Text| #[trigger]
        world(Request::SetLabel { path, label }) == ReplyView::Done
    &&& forall|source: Text, target: Text| #[trigger]
        world(Request::BindMount { source, target }) == ReplyView::Done
    &&& forall|source: Text, target: Text| #[trigger]
        world(Request::MoveMount { source, target }) == ReplyView::Done
    &&& forall|p: Text| #[trigger] world(Request::ReadLink(p)) is Data
    &&& forall|p: Text| #[trigger] world(Request::GetLabel(p)) is Data
    &&& forall|p: Text| #[trigger] world(Request::Stat(p)) is Stat
    &&& forall|p: Text| #[trigger] world(Request::ListDir(p)) is Listing
    &&& forall|p: Text, i: int| #[trigger] lists_well(world, p, i)
}

/// The entry at `i` of a directory has a kind, and if it is a directory it can be looked at.
pub open spec fn lists_well(world: World, dir: Text, i: int) -> bool {
    world(Request::ListDir(dir)) matches ReplyView::Listing(l) ==> 0 <= i < l.len() ==> (
    l[i] matches Some(e) ==> {
        &&& e.kind is Ok
        &&& e.kind == Ok::<FileKind, u64>(FileKind::Dir) ==> world(
            Request::Lstat(joined(dir, e.name)),
        ) is Stat
    })
}

/// The requests that make the link `source` again at `target`: it points to just what the host read
/// from it, and it gets the label of the old one.
pub open spec fn link_requests(world: World, source: Text, target: Text) -> Seq<Request<Text>> {
    seq![
        Request::ReadLink(source),
        Request::MakeSymlink { target: world(Request::ReadLink(source))->Data_0, link: target },
        Request::GetLabel(source),
        Request::SetLabel { path: target, label: world(Request::GetLabel(source))->Data_0 },
    ]
}

/// The requests that give `target` the permissions, the owner and the label of `source`, of which
/// `look` tells the metadata.
pub open spec fn likeness_requests(
    world: World,
    look: Request<Text>,
    source: Text,
    target: Text,
) -> Seq<Request<Text>> {
    let metadata = world(look)->Stat_0;
    seq![
        look,
        Request::SetMode { path: target, mode: metadata.mode & !0xf000u32 },
        Request::SetOwner { path: target, uid: metadata.uid, gid: metadata.gid },
        Request::GetLabel(source),
        Request::SetLabel { path: target, label: world(Request::GetLabel(source))->Data_0 },
    ]
}

/// How the first of several steps is taken: its question is asked, and answered as the world is.
pub proof fn lemma_step_taken(
    world: World,
    request: Request<Text>,
    purpose: Purpose<Text>,
    rest: Seq<Step<Text>>,
    io: Io,
)
    requires
        truthful(world, io, perform(seq![Step::Ask(request, purpose)] + rest, io)),
    ensures
        ({
            let whole = perform(seq![Step::Ask(request, purpose)] + rest, io);
            let next = ask(io, request).io;
            &&& next.asked == io.asked.push(request)
            &&& io.rest.len() == 0 ==> whole.out is Waiting
            &&& io.rest.len() > 0 ==> {
                &&& next.rest.len() == io.rest.len() - 1
                &&& whole == perform_reply(purpose, rest, world(request), next)
                &&& truthful(world, next, whole)
            }
        }),
{
    let steps = seq![Step::Ask(request, purpose)] + rest;
    let whole = perform(steps, io);
    let run = ask(io, request);
    assert(steps[0] == Step::Ask(request, purpose));
    assert(steps.drop_first() =~= rest);
    if io.rest.len() > 0 {
        let reply = io.rest[0];
        assert(whole == perform_reply(purpose, rest, reply, run.io));
        match consequence(purpose, reply) {
            Ok(more) => {
                steps_are_orderly(more + rest, run.io);
            },
            Err(e) => {
                lemma_end(run.io, Outcome::<()>::Fail(e), no_limits());
            },
        }
        lemma_truthful_ask(world, io, request, whole, no_limits());
    }
}

/// How a call that has to succeed is made, where it succeeds.
pub proof fn lemma_call_made(
    world: World,
    request: Request<Text>,
    purpose: Purpose<Text>,
    rest: Seq<Step<Text>>,
    io: Io,
)
    requires
        purpose is Success || purpose is Task,
        world(request) == ReplyView::Done,
        truthful(world, io, perform(seq![Step::Ask(request, purpose)] + rest, io)),
    ensures
        ({
            let whole = perform(seq![Step::Ask(request, purpose)] + rest, io);
            let next = ask(io, request).io;
            &&& next.asked == io.asked.push(request)
            &&& io.rest.len() == 0 ==> whole.out is Waiting
            &&& io.rest.len() > 0 ==> {
                &&& next.rest.len() == io.rest.len() - 1
                &&& whole == perform(rest, next)
                &&& truthful(world, next, whole)
            }
        }),
{
    lemma_step_taken(world, request, purpose, rest, io);
    assert(Seq::<Step<Text>>::empty() + rest =~= rest);
}

/// How a label is copied, where all calls succeed.
proof fn lemma_label_copied(
    world: World,
    source: Text,
    target: Text,
    rest: Seq<Step<Text>>,
    io: Io,
) -> (after: Io)
    requires
        obliging(world),
        truthful(world, io, perform(seq![copy_label_step(source, target)] + rest, io)),
    ensures
        ({
            let whole = perform(seq![copy_label_step(source, target)] + rest, io);
            let label = world(Request::GetLabel(source))->Data_0;
            ||| whole.out is Waiting
            ||| {
                &&& whole == perform(rest, after)
                &&& truthful(world, after, whole)
                &&& after.rest.len() < io.rest.len()
                &&& after.asked == io.asked.push(Request::GetLabel(source)).push(
                    Request::SetLabel { path: target, label },
                )
            }
        }),
{
    let whole = perform(seq![copy_label_step(source, target)] + rest, io);
    let get = Request::GetLabel(source);
    lemma_step_taken(world, get, Purpose::Label { target }, rest, io);
    if io.rest.len() > 0 {
        let next = ask(io, get).io;
        let label = world(get)->Data_0;
        let set = Request::SetLabel { path: target, label };
        assert(world(get) is Data);
        assert(whole == perform(seq![must(set)] + rest, next));
        lemma_call_made(world, set, Purpose::Success, rest, next);
        ask(next, set).io
    } else {
        io
    }
}

/// How a link is made again, where all calls succeed: the new link points to just what was read
/// from the old one, whatever that is, and gets its label.
pub proof fn lemma_link_made(
    world: World,
    source: Text,
    target: Text,
    rest: Seq<Step<Text>>,
    io: Io,
) -> (after: Io)
    requires
        obliging(world),
        truthful(world, io, perform(seq![clone_symlink_step(source, target)] + rest, io)),
    ensures
        ({
            let whole = perform(seq![clone_symlink_step(source, target)] + rest, io);
            ||| whole.out is Waiting
            ||| {
                &&& whole == perform(rest, after)
                &&& truthful(world, after, whole)
                &&& after.rest.len() < io.rest.len()
                &&& after.asked == io.asked + link_requests(world, source, target)
            }
        }),
{
    let whole = perform(seq![clone_symlink_step(source, target)] + rest, io);
    let read = Request::ReadLink(source);
    lemma_step_taken(world, read, Purpose::Link { source, target }, rest, io);
    if io.rest.len() > 0 {
        let next = ask(io, read).io;
        let points_to = world(read)->Data_0;
        let make = Request::MakeSymlink { target: points_to, link: target };
        let label = seq![copy_label_step(source, target)] + rest;
        assert(world(read) is Data);
        assert(seq![must(make), copy_label_step(source, target)] + rest =~= seq![must(make)]
            + label);
        assert(whole == perform(seq![must(make)] + label, next));
        lemma_call_made(world, make, Purpose::Success, label, next);
        if next.rest.len() > 0 {
            let made = ask(next, make).io;
            let after = lemma_label_copied(world, source, target, rest, made);
            assert(!(whole.out is Waiting) ==> after.asked =~= io.asked + link_requests(
                world,
                source,
                target,
            ));
            after
        } else {
            io
        }
    } else {
        io
    }
}

/// How permissions, owner and label are copied, where all calls succeed.
pub proof fn lemma_likeness_made(
    world: World,
    follow: bool,
    source: Text,
    target: Text,
    rest: Seq<Step<Text>>,
    io: Io,
) -> (after: Io)
    requires
        obliging(world),
        !follow ==> world(Request::Lstat(source)) is Stat,
        truthful(world, io, perform(seq![copy_attributes_step(follow, source, target)] + rest, io)),
    ensures
        ({
            let whole = perform(seq![copy_attributes_step(follow, source, target)] + rest, io);
            let look = if follow {
                Request::Stat(source)
            } else {
                Request::Lstat(source)
            };
            ||| whole.out is Waiting
            ||| {
                &&& whole == perform(rest, after)
                &&& truthful(world, after, whole)
                &&& after.rest.len() < io.rest.len()
                &&& after.asked == io.asked + likeness_requests(world, look, source, target)
            }
        }),
{
    let whole = perform(seq![copy_attributes_step(follow, source, target)] + rest, io);
    let look = if follow {
        Request::Stat(source)
    } else {
        Request::Lstat(source)
    };
    lemma_step_taken(world, look, Purpose::Attributes { source, target }, rest, io);
    if io.rest.len() > 0 {
        let next = ask(io, look).io;
        assert(world(look) is Stat);
        let m = world(look)->Stat_0;
        let mode = Request::SetMode { path: target, mode: m.mode & !0xf000u32 };
        let owner = Request::SetOwner { path: target, uid: m.uid, gid: m.gid };
        let label = seq![copy_label_step(source, target)] + rest;
        let owned = seq![must(owner)] + label;
        assert(seq![must(mode), must(owner), copy_label_step(source, target)] + rest =~= seq![
            must(mode),
        ] + owned);
        assert(whole == perform(seq![must(mode)] + owned, next));
        lemma_call_made(world, mode, Purpose::Success, owned, next);
        if next.rest.len() > 0 {
            let moded = ask(next, mode).io;
            lemma_call_made(world, owner, Purpose::Success, label, moded);
            if moded.rest.len() > 0 {
                let given = ask(moded, owner).io;
                let after = lemma_label_copied(world, source, target, rest, given);
                assert(!(whole.out is Waiting) ==> after.asked =~= io.asked + likeness_requests(
                    world,
                    look,
                    source,
                    target,
                ));
                after
            } else {
                io
            }
        } else {
            io
        }
    } else {
        io
    }
}

/// A link is made again with just the bytes that were read from the old one, whatever they are, and
/// then gets the label that was read from the old one.
pub proof fn links_point_where_they_pointed(
    source: Text,
    target: Text,
    points_to: Text,
    label: Text,
    io: Io,
)
    requires
        io.rest.len() >= 4,
        io.rest[0] == ReplyView::Data(points_to),
        io.rest[1] == ReplyView::Done,
        io.rest[2] == ReplyView::Data(label),
        io.rest[3] == ReplyView::Done,
    ensures
        ({
            let run = perform(seq![clone_symlink_step(source, target)], io);
            &&& run.out == Outcome::Done(())
            &&& run.io.rest == io.rest.skip(4)
            &&& run.io.asked == io.asked + seq![
                Request::ReadLink(source),
                Request::MakeSymlink { target: points_to, link: target },
                Request::GetLabel(source),
                Request::SetLabel { path: target, label },
            ]
        }),
{
    let whole = perform(seq![clone_symlink_step(source, target)], io);
    let none = Seq::<Step<Text>>::empty();
    let first = lemma_answered(
        Request::ReadLink(source),
        Purpose::Link { source, target },
        none,
        io,
    );
    let make = Request::MakeSymlink { target: points_to, link: target };
    let label_step = copy_label_step(source, target);
    assert(seq![clone_symlink_step(source, target)] =~= seq![clone_symlink_step(source, target)]
        + none);
    assert(seq![must(make), label_step] + none =~= seq![must(make)] + seq![label_step]);
    let second = lemma_answered(make, Purpose::Success, seq![label_step], first);
    assert(none + seq![label_step] =~= seq![label_step] + none);
    let third = lemma_answered(Request::GetLabel(source), Purpose::Label { target }, none, second);
    let set = Request::SetLabel { path: target, label };
    let last = lemma_answered(set, Purpose::Success, none, third);
    assert(none + none =~= none);
    assert(whole == perform(none, last));
    assert(whole.io.asked =~= io.asked + seq![
        Request::ReadLink(source),
        make,
        Request::GetLabel(source),
        set,
    ]);
    assert(whole.io.rest =~= io.rest.skip(4));
}

/// How the first of several steps is taken when its reply is there.
pub proof fn lemma_answered(
    request: Request<Text>,
    purpose: Purpose<Text>,
    rest: Seq<Step<Text>>,
    io: Io,
) -> (next: Io)
    requires
        io.rest.len() > 0,
    ensures
        next == ask(io, request).io,
        next.asked == io.asked.push(request),
        next.rest == io.rest.drop_first(),
        perform(seq![Step::Ask(request, purpose)] + rest, io) == perform_reply(
            purpose,
            rest,
            io.rest[0],
            next,
        ),
{
    let steps = seq![Step::Ask(request, purpose)] + rest;
    assert(steps[0] == Step::Ask(request, purpose));
    assert(steps.drop_first() =~= rest);
    ask(io, request).io
}

/// What cannot be read of a link is not made up: no link is made.
pub proof fn unreadable_links_are_not_made(source: Text, target: Text, id: u64, io: Io)
    requires
        io.rest.len() > 0,
        io.rest[0] == ReplyView::Failed(id),
    ensures
        ({
            let run = perform(seq![clone_symlink_step(source, target)], io);
            &&& run.out == Outcome::<()>::Fail(Error::Failed(id))
            &&& run.io.asked == io.asked.push(Request::ReadLink(source))
        }),
{
    let none = Seq::<Step<Text>>::empty();
    assert(seq![clone_symlink_step(source, target)] =~= seq![clone_symlink_step(source, target)]
        + none);
    let next = lemma_answered(
        Request::ReadLink(source),
        Purpose::Link { source, target },
        none,
        io,
    );
}

/// Permissions, owner and label are copied as they were told: of the mode all but the file type is
/// taken over, and nothing of the owner or the label is changed.
pub proof fn attributes_are_copied_as_told(
    follow: bool,
    source: Text,
    target: Text,
    metadata: Metadata,
    label: Text,
    io: Io,
)
    requires
        io.rest.len() >= 5,
        io.rest[0] == ReplyView::Stat(metadata),
        io.rest[1] == ReplyView::Done,
        io.rest[2] == ReplyView::Done,
        io.rest[3] == ReplyView::Data(label),
        io.rest[4] == ReplyView::Done,
    ensures
        ({
            let run = perform(seq![copy_attributes_step(follow, source, target)], io);
            &&& run.out == Outcome::Done(())
            &&& run.io.rest == io.rest.skip(5)
            &&& run.io.asked == io.asked + seq![
                if follow {
                    Request::Stat(source)
                } else {
                    Request::Lstat(source)
                },
                Request::SetMode { path: target, mode: metadata.mode & !0xf000u32 },
                Request::SetOwner { path: target, uid: metadata.uid, gid: metadata.gid },
                Request::GetLabel(source),
                Request::SetLabel { path: target, label },
            ]
        }),
{
    let step = copy_attributes_step(follow, source, target);
    let whole = perform(seq![step], io);
    let none = Seq::<Step<Text>>::empty();
    let look = if follow {
        Request::Stat(source)
    } else {
        Request::Lstat(source)
    };
    let mode = Request::SetMode { path: target, mode: metadata.mode & !0xf000u32 };
    let owner = Request::SetOwner { path: target, uid: metadata.uid, gid: metadata.gid };
    let set = Request::SetLabel { path: target, label };
    let label_step = copy_label_step(source, target);
    assert(seq![step] =~= seq![step] + none);
    let first = lemma_answered(look, Purpose::Attributes { source, target }, none, io);
    let owned = seq![must(owner), label_step];
    assert(seq![must(mode), must(owner), label_step] + none =~= seq![must(mode)] + owned);
    let second = lemma_answered(mode, Purpose::Success, owned, first);
    assert(none + owned =~= seq![must(owner)] + seq![label_step]);
    let third = lemma_answered(owner, Purpose::Success, seq![label_step], second);
    assert(none + seq![label_step] =~= seq![label_step] + none);
    let fourth = lemma_answered(Request::GetLabel(source), Purpose::Label { target }, none, third);
    let last = lemma_answered(set, Purpose::Success, none, fourth);
    assert(none + none =~= none);
    assert(whole == perform(none, last));
    assert(whole.io.asked =~= io.asked + seq![look, mode, owner, Request::GetLabel(source), set]);
    assert(whole.io.rest =~= io.rest.skip(5));
}

} // verus!
