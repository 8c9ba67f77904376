//! A directory that is built anew keeps everything that the device had there, at any depth.

use vstd::prelude::*;

use crate::bytes::joined;
use crate::laws::conversation::{lemma_proceeds, no_limits};
use crate::laws::copying::{
    lemma_call_made, lemma_likeness_made, lemma_link_made, lemma_step_taken, likeness_requests,
    link_requests, lists_well, obliging,
};
use crate::laws::device::{lemma_kept_readable, lemma_readable_kept, listed};
use crate::laws::directories::steps_follow_each_other;
use crate::laws::finding::{lemma_truthful_parts, truthful, World};
use crate::laws::orderly::steps_are_orderly;
use crate::protocol::{ask, done, readable, Entry, FileKind, Io, Outcome, Request, Text};
use crate::script::{
    copy_attributes_step, mirror_all, mirror_dir_step, mirror_steps, must, perform, Purpose, Step,
};

verus! {

/// Requests stand one after the other in a log, at `a` and behind, between two points.
pub open spec fn asked_at(
    log: Seq<Request<Text>>,
    from: int,
    to: int,
    a: int,
    requests: Seq<Request<Text>>,
) -> bool {
    &&& 0 <= from <= a
    &&& a + requests.len() <= to <= log.len()
    &&& log.subrange(a, a + requests.len()) == requests
}

/// Two logs agree between two points.
pub open spec fn agree(
    one: Seq<Request<Text>>,
    other: Seq<Request<Text>>,
    from: int,
    to: int,
) -> bool {
    &&& to <= one.len()
    &&& to <= other.len()
    &&& forall|i: int| from <= i < to ==> #[trigger] one[i] == other[i]
}

/// What was asked for between two points was so between points further apart, in a log that agrees.
pub proof fn lemma_asked_wider(
    one: Seq<Request<Text>>,
    other: Seq<Request<Text>>,
    from: int,
    to: int,
    earlier: int,
    later: int,
    a: int,
    requests: Seq<Request<Text>>,
)
    requires
        asked_at(one, from, to, a, requests),
        agree(one, other, from, to),
        0 <= earlier <= from,
        to <= later <= other.len(),
    ensures
        asked_at(other, earlier, later, a, requests),
{
    assert(other.subrange(a, a + requests.len()) =~= one.subrange(a, a + requests.len()));
}

/// The requests that make an empty file and bind another over it.
pub open spec fn new_file_requests(source: Text, target: Text) -> Seq<Request<Text>> {
    seq![Request::CreateFile(target), Request::BindMount { source, target }]
}

/// The requests that make a directory in the likeness of another and ask what that one holds.
pub open spec fn new_dir_requests(world: World, source: Text, target: Text) -> Seq<Request<Text>> {
    seq![Request::CreateDir(target)] + likeness_requests(
        world,
        Request::Lstat(source),
        source,
        target,
    ) + seq![Request::ListDir(source)]
}

/// An entry of the directory `path` was mirrored in the directory `work`, down to `depth` levels. A
/// file was created and the device's bound over it. A link was made again. A directory was made in
/// the likeness of the device's, and then all that the device's holds was mirrored in it.
pub open spec fn mirrored(
    world: World,
    log: Seq<Request<Text>>,
    from: int,
    to: int,
    path: Text,
    work: Text,
    entry: Entry<Text>,
    depth: nat,
) -> bool
    decreases depth,
{
    let source = joined(path, entry.name);
    let target = joined(work, entry.name);
    depth > 0 ==> match entry.kind {
        Ok(FileKind::File) => exists|a: int| #[trigger]
            asked_at(log, from, to, a, new_file_requests(source, target)),
        Ok(FileKind::Symlink) => exists|a: int| #[trigger]
            asked_at(log, from, to, a, link_requests(world, source, target)),
        Ok(FileKind::Dir) => exists|a: int| #[trigger]
            asked_at(log, from, to, a, new_dir_requests(world, source, target)) && forall|i: int|
                (#[trigger] listed(world, source, i)) matches Some(inner) ==> mirrored(
                    world,
                    log,
                    a + 7,
                    to,
                    source,
                    target,
                    inner,
                    (depth - 1) as nat,
                ),
        _ => true,
    }
}

/// An entry was mirrored with all that it holds, however deep.
pub open spec fn fully_mirrored(
    world: World,
    log: Seq<Request<Text>>,
    from: int,
    to: int,
    path: Text,
    work: Text,
    entry: Entry<Text>,
) -> bool {
    forall|depth: nat| #[trigger] mirrored(world, log, from, to, path, work, entry, depth)
}

/// What was mirrored between two points was so between points further apart.
pub proof fn lemma_mirrored_wider(
    world: World,
    one: Seq<Request<Text>>,
    other: Seq<Request<Text>>,
    from: int,
    to: int,
    earlier: int,
    later: int,
    path: Text,
    work: Text,
    entry: Entry<Text>,
    depth: nat,
)
    requires
        mirrored(world, one, from, to, path, work, entry, depth),
        agree(one, other, from, to),
        0 <= earlier <= from,
        to <= later <= other.len(),
    ensures
        mirrored(world, other, earlier, later, path, work, entry, depth),
    decreases depth,
{
    let source = joined(path, entry.name);
    let target = joined(work, entry.name);
    if depth > 0 {
        match entry.kind {
            Ok(FileKind::File) => {
                let requests = new_file_requests(source, target);
                let a = choose|a: int| #[trigger] asked_at(one, from, to, a, requests);
                lemma_asked_wider(one, other, from, to, earlier, later, a, requests);
            },
            Ok(FileKind::Symlink) => {
                let requests = link_requests(world, source, target);
                let a = choose|a: int| #[trigger] asked_at(one, from, to, a, requests);
                lemma_asked_wider(one, other, from, to, earlier, later, a, requests);
            },
            Ok(FileKind::Dir) => {
                let requests = new_dir_requests(world, source, target);
                let a = choose|a: int| #[trigger]
                    asked_at(one, from, to, a, requests) && forall|i: int|
                        (#[trigger] listed(world, source, i)) matches Some(inner) ==> mirrored(
                            world,
                            one,
                            a + 7,
                            to,
                            source,
                            target,
                            inner,
                            (depth - 1) as nat,
                        );
                lemma_asked_wider(one, other, from, to, earlier, later, a, requests);
                assert forall|i: int|
                    (#[trigger] listed(world, source, i)) is Some implies mirrored(
                    world,
                    other,
                    a + 7,
                    later,
                    source,
                    target,
                    listed(world, source, i)->0,
                    (depth - 1) as nat,
                ) by {
                    lemma_mirrored_wider(
                        world,
                        one,
                        other,
                        a + 7,
                        to,
                        a + 7,
                        later,
                        source,
                        target,
                        listed(world, source, i)->0,
                        (depth - 1) as nat,
                    );
                }
            },
            _ => {},
        }
    }
}

/// What was mirrored in full between two points was so between points further apart.
pub proof fn lemma_fully_wider(
    world: World,
    one: Seq<Request<Text>>,
    other: Seq<Request<Text>>,
    from: int,
    to: int,
    earlier: int,
    later: int,
    path: Text,
    work: Text,
    entry: Entry<Text>,
)
    requires
        fully_mirrored(world, one, from, to, path, work, entry),
        agree(one, other, from, to),
        0 <= earlier <= from,
        to <= later <= other.len(),
    ensures
        fully_mirrored(world, other, earlier, later, path, work, entry),
{
    assert forall|depth: nat| #[trigger]
        mirrored(world, other, earlier, later, path, work, entry, depth) by {
        assert(mirrored(world, one, from, to, path, work, entry, depth));
        lemma_mirrored_wider(
            world,
            one,
            other,
            from,
            to,
            earlier,
            later,
            path,
            work,
            entry,
            depth,
        );
    }
}

/// The host can tell the kind of an entry, and can look at it if it is a directory.
pub open spec fn fine_entry(world: World, path: Text, entry: Entry<Text>) -> bool {
    &&& entry.kind is Ok
    &&& entry.kind == Ok::<FileKind, u64>(FileKind::Dir) ==> world(
        Request::Lstat(joined(path, entry.name)),
    ) is Stat
}

/// One conversation goes on from another, as what is asked is concerned.
pub proof fn lemma_prefix(steps: Seq<Step<Text>>, io: Io)
    ensures
        ({
            let run = perform(steps, io);
            &&& io.asked.len() <= run.io.asked.len()
            &&& agree(io.asked, run.io.asked, 0, io.asked.len() as int)
            &&& !(run.out is Waiting) ==> run.io.rest.len() <= io.rest.len()
        }),
{
    steps_are_orderly(steps, io);
    let run = perform(steps, io);
    lemma_proceeds(io, run, no_limits());
    assert forall|i: int| 0 <= i < io.asked.len() implies #[trigger] io.asked[i]
        == run.io.asked[i] by {
        assert(run.io.asked.take(io.asked.len() as int)[i] == run.io.asked[i]);
    }
}

/// Mirroring an entry is complete where all calls succeed, and does not fail there.
pub proof fn mirroring_is_complete(
    world: World,
    path: Text,
    work: Text,
    entry: Entry<Text>,
    io: Io,
)
    requires
        obliging(world),
        fine_entry(world, path, entry),
        truthful(world, io, perform(mirror_steps(path, work, entry), io)),
    ensures
        ({
            let run = perform(mirror_steps(path, work, entry), io);
            &&& !(run.out is Fail)
            &&& run.out is Done ==> fully_mirrored(
                world,
                run.io.asked,
                io.asked.len() as int,
                run.io.asked.len() as int,
                path,
                work,
                entry,
            )
        }),
    decreases io.rest.len(), 1nat,
{
    let source = joined(path, entry.name);
    let target = joined(work, entry.name);
    let steps = mirror_steps(path, work, entry);
    let whole = perform(steps, io);
    let none = Seq::<Step<Text>>::empty();
    let from = io.asked.len() as int;
    let to = whole.io.asked.len() as int;
    match entry.kind {
        Ok(FileKind::File) => {
            let create = Request::CreateFile(target);
            let bind = Request::BindMount { source, target };
            assert(steps =~= seq![must(create)] + seq![must(bind)]);
            lemma_call_made(world, create, Purpose::Success, seq![must(bind)], io);
            if io.rest.len() > 0 {
                let next = ask(io, create).io;
                assert(seq![must(bind)] =~= seq![must(bind)] + none);
                lemma_call_made(world, bind, Purpose::Success, none, next);
                if next.rest.len() > 0 {
                    let requests = new_file_requests(source, target);
                    assert(whole.io.asked.subrange(from, from + 2) =~= requests);
                    assert(asked_at(whole.io.asked, from, to, from, requests));
                }
            }
        },
        Ok(FileKind::Symlink) => {
            let requests = link_requests(world, source, target);
            assert(steps =~= steps + none);
            let after = lemma_link_made(world, source, target, none, io);
            if !(whole.out is Waiting) {
                assert(whole == done(after, ()));
                assert(whole.io.asked.subrange(from, from + 4) =~= requests);
                assert(asked_at(whole.io.asked, from, to, from, requests));
            }
        },
        Ok(FileKind::Dir) => {
            lemma_directory_mirrored(world, path, work, entry, io);
        },
        _ => {},
    }
    if whole.out is Done && entry.kind != Ok::<FileKind, u64>(FileKind::Dir) {
        assert forall|depth: nat| #[trigger]
            mirrored(world, whole.io.asked, from, to, path, work, entry, depth) by {}
    }
}

/// Mirroring a directory is complete.
proof fn lemma_directory_mirrored(
    world: World,
    path: Text,
    work: Text,
    entry: Entry<Text>,
    io: Io,
)
    requires
        obliging(world),
        entry.kind == Ok::<FileKind, u64>(FileKind::Dir),
        fine_entry(world, path, entry),
        truthful(world, io, perform(mirror_steps(path, work, entry), io)),
    ensures
        ({
            let run = perform(mirror_steps(path, work, entry), io);
            &&& !(run.out is Fail)
            &&& run.out is Done ==> fully_mirrored(
                world,
                run.io.asked,
                io.asked.len() as int,
                run.io.asked.len() as int,
                path,
                work,
                entry,
            )
        }),
    decreases io.rest.len(), 0nat,
{
    let source = joined(path, entry.name);
    let target = joined(work, entry.name);
    let steps = mirror_steps(path, work, entry);
    let whole = perform(steps, io);
    let none = Seq::<Step<Text>>::empty();
    let from = io.asked.len() as int;
    let to = whole.io.asked.len() as int;
    let create = Request::CreateDir(target);
    let list = Request::ListDir(source);
    let last = seq![mirror_dir_step(source, target)];
    let behind = seq![copy_attributes_step(false, source, target)] + last;
    assert(steps =~= seq![must(create)] + behind);
    lemma_call_made(world, create, Purpose::Success, behind, io);
    if io.rest.len() > 0 {
        let made = ask(io, create).io;
        let alike = lemma_likeness_made(world, false, source, target, last, made);
        if !(whole.out is Waiting) {
            assert(last =~= last + none);
            lemma_step_taken(world, list, Purpose::Mirror { source, target }, none, alike);
            if alike.rest.len() > 0 {
                let known = ask(alike, list).io;
                assert(world(list) is Listing);
                let l = world(list)->Listing_0;
                let entries = readable(l);
                let inner = mirror_all(source, target, entries);
                assert(inner + none =~= inner);
                assert(whole == perform(inner, known));
                assert forall|k: int| 0 <= k < entries.len() implies fine_entry(
                    world,
                    source,
                    #[trigger] entries[k],
                ) by {
                    let i = lemma_kept_readable(l, k);
                    assert(lists_well(world, source, i));
                }
                lemma_all_mirrored(world, source, target, entries, known);
                lemma_prefix(inner, known);
                let requests = new_dir_requests(world, source, target);
                assert(known.asked =~= io.asked + requests);
                assert forall|i: int| 0 <= i < 7 implies whole.io.asked[from + i]
                    == #[trigger] requests[i] by {
                    assert(known.asked[from + i] == requests[i]);
                }
                assert(whole.io.asked.subrange(from, from + 7) =~= requests);
                if whole.out is Done {
                    assert(asked_at(whole.io.asked, from, to, from, requests));
                    assert forall|depth: nat| #[trigger]
                        mirrored(world, whole.io.asked, from, to, path, work, entry, depth) by {
                        if depth > 0 {
                            assert forall|i: int|
                                (#[trigger] listed(world, source, i)) is Some implies mirrored(
                                world,
                                whole.io.asked,
                                from + 7,
                                to,
                                source,
                                target,
                                listed(world, source, i)->0,
                                (depth - 1) as nat,
                            ) by {
                                let k = lemma_readable_kept(l, i);
                                assert(fully_mirrored(
                                    world,
                                    whole.io.asked,
                                    from + 7,
                                    to,
                                    source,
                                    target,
                                    entries[k],
                                ));
                            }
                        }
                    }
                }
            }
        }
    }
}

/// Mirroring several entries is complete.
proof fn lemma_all_mirrored(
    world: World,
    path: Text,
    work: Text,
    entries: Seq<Entry<Text>>,
    io: Io,
)
    requires
        obliging(world),
        forall|k: int| 0 <= k < entries.len() ==> fine_entry(world, path, #[trigger] entries[k]),
        truthful(world, io, perform(mirror_all(path, work, entries), io)),
    ensures
        ({
            let run = perform(mirror_all(path, work, entries), io);
            &&& !(run.out is Fail)
            &&& run.out is Done ==> forall|k: int|
                0 <= k < entries.len() ==> fully_mirrored(
                    world,
                    run.io.asked,
                    io.asked.len() as int,
                    run.io.asked.len() as int,
                    path,
                    work,
                    #[trigger] entries[k],
                )
        }),
    decreases io.rest.len(), 2 + entries.len(),
{
    let whole = perform(mirror_all(path, work, entries), io);
    if entries.len() > 0 {
        let first = mirror_steps(path, work, entries[0]);
        let others = entries.drop_first();
        let second = mirror_all(path, work, others);
        let run = perform(first, io);
        assert(mirror_all(path, work, entries) == first + second);
        steps_follow_each_other(first, second, io);
        steps_are_orderly(first, io);
        lemma_prefix(first, io);
        assert(fine_entry(world, path, entries[0]));
        match run.out {
            Outcome::Done(_) => {
                assert(whole == perform(second, run.io));
                steps_are_orderly(second, run.io);
                lemma_prefix(second, run.io);
                lemma_truthful_parts(world, io, run, whole, no_limits());
                mirroring_is_complete(world, path, work, entries[0], io);
                assert forall|k: int| 0 <= k < others.len() implies fine_entry(
                    world,
                    path,
                    #[trigger] others[k],
                ) by {
                    assert(fine_entry(world, path, entries[k + 1]));
                }
                lemma_all_mirrored(world, path, work, others, run.io);
                if whole.out is Done {
                    let from = io.asked.len() as int;
                    let mid = run.io.asked.len() as int;
                    let to = whole.io.asked.len() as int;
                    assert forall|k: int| 0 <= k < entries.len() implies fully_mirrored(
                        world,
                        whole.io.asked,
                        from,
                        to,
                        path,
                        work,
                        #[trigger] entries[k],
                    ) by {
                        if k == 0 {
                            lemma_fully_wider(
                                world,
                                run.io.asked,
                                whole.io.asked,
                                from,
                                mid,
                                from,
                                to,
                                path,
                                work,
                                entries[0],
                            );
                        } else {
                            assert(others[k - 1] == entries[k]);
                            lemma_fully_wider(
                                world,
                                whole.io.asked,
                                whole.io.asked,
                                mid,
                                to,
                                from,
                                to,
                                path,
                                work,
                                entries[k],
                            );
                        }
                    }
                }
            },
            _ => {
                mirroring_is_complete(world, path, work, entries[0], io);
            },
        }
    }
}

/// Anything else than a file, a directory or a link is left out of a mirror.
pub proof fn special_files_are_not_mirrored(path: Text, work: Text, entry: Entry<Text>, io: Io)
    requires
        entry.kind == Ok::<FileKind, u64>(FileKind::CharDevice) || entry.kind == Ok::<
            FileKind,
            u64,
        >(FileKind::Other),
    ensures
        perform(mirror_steps(path, work, entry), io) == done(io, ()),
{
}

} // verus!
