//! Sessions with bind mounts, from beginning to end.

use vstd::prelude::*;
#[allow(unused_imports)]
use vstd::string::StringSliceAdditionalSpecFns;

use crate::laws::collection::collected_tree_is_well_formed;
use crate::laws::conversation::{lemma_recast, lemma_then, lemma_weaken, no_limits};
use crate::laws::copying::{lemma_call_made, obliging};
use crate::laws::finding::{lemma_truthful_parts, truthful, World};
use crate::laws::mirroring::{agree, asked_at};
use crate::laws::orderly::{mounting_is_orderly, steps_are_orderly};
use crate::laws::reading::{module_queries, scanned_only_reads};
use crate::laws::sessions::lemma_cleanup;
use crate::laws::showing::{
    lemma_prefix_kept, lemma_shown_wider, lemma_stand_at, mounted_nodes_are_shown, shown,
};
use crate::mount::mounted;
use crate::node::NodeView;
use crate::protocol::{ask, done, Io, Outcome, ReplyView, Request, Task, Text};
use crate::rules::RulesView;
use crate::scan::scanned;
use crate::script::{must, perform, task, Purpose, Step};
use crate::session::{cleanup_steps, magic_mounted, magic_ready, magic_tried, setup_steps};

verus! {

/// The host can set up a memory file system at `tmp`.
pub open spec fn has_memory(world: World, tmp: Text) -> bool {
    &&& world(Request::EnsureDir(tmp)) == ReplyView::Done
    &&& world(Request::MountTmpfs(tmp)) == ReplyView::Done
}

/// The requests that set up the memory file system.
pub open spec fn memory_requests(tmp: Text) -> Seq<Request<Text>> {
    seq![Request::EnsureDir(tmp), Request::MountTmpfs(tmp), Request::MakePrivate(tmp)]
}

/// A session for a tree from `n` on: the memory file system is set up, the whole tree is shown at
/// the root of the device, and at the end the memory file system is taken away.
pub open spec fn session_at(
    world: World,
    log: Seq<Request<Text>>,
    n: int,
    tmp: Text,
    root: NodeView,
) -> bool {
    &&& 0 <= n
    &&& n + 5 <= log.len()
    &&& asked_at(log, n, n + 3, n, memory_requests(tmp))
    &&& shown(world, log, n + 3, log.len() - 2, "/".spec_bytes(), tmp, root, false)
    &&& log[log.len() - 2] == Request::<Text>::Unmount(tmp)
    &&& log[log.len() - 1] == Request::<Text>::RemoveDir(tmp)
}

/// How the memory file system is set up, where all calls succeed.
proof fn lemma_memory_made(world: World, tmp: Text, io: Io)
    requires
        obliging(world),
        has_memory(world, tmp),
        truthful(world, io, perform(setup_steps(tmp), io)),
    ensures
        ({
            let setup = perform(setup_steps(tmp), io);
            ||| setup.out is Waiting
            ||| setup.out is Done && setup.io.asked == io.asked + memory_requests(tmp)
        }),
{
    let none = Seq::<Step<Text>>::empty();
    let ensure = Request::EnsureDir(tmp);
    let mount = Request::MountTmpfs(tmp);
    let private = Request::MakePrivate(tmp);
    let third = seq![task(Task::MakeTmpPrivate, private)];
    let second = seq![task(Task::MountTmp, mount)] + third;
    let setup = perform(setup_steps(tmp), io);
    assert(setup_steps(tmp) =~= seq![must(ensure)] + second);
    lemma_call_made(world, ensure, Purpose::Success, second, io);
    if io.rest.len() > 0 {
        let one = ask(io, ensure).io;
        lemma_call_made(world, mount, Purpose::Task(Task::MountTmp), third, one);
        if one.rest.len() > 0 {
            let two = ask(one, mount).io;
            assert(third =~= third + none);
            lemma_call_made(world, private, Purpose::Task(Task::MakeTmpPrivate), none, two);
            if two.rest.len() > 0 {
                assert(setup.io.asked =~= io.asked + memory_requests(tmp));
            }
        }
    }
}

/// Where all calls succeed, a session with bind mounts fails only as going through the modules
/// does. Without a tree nothing more is asked for. With one, the memory file system is set up, the
/// whole tree is shown at the root of the device, and at the end the memory file system is taken
/// away again.
pub proof fn magic_sessions_show_everything(world: World, rules: RulesView, tmp: Text, io: Io)
    requires
        obliging(world),
        has_memory(world, tmp),
        truthful(world, io, magic_mounted(rules, tmp, io)),
    ensures
        ({
            let scan = scanned(rules, io);
            let whole = magic_mounted(rules, tmp, io);
            match scan.out {
                Outcome::Done(Some(root)) => {
                    &&& !(whole.out is Fail)
                    &&& whole.out is Done ==> session_at(
                        world,
                        whole.io.asked,
                        scan.io.asked.len() as int,
                        tmp,
                        root,
                    )
                },
                Outcome::Done(None) => whole == done(scan.io, ()),
                Outcome::Fail(e) => whole.io == scan.io && whole.out == Outcome::<()>::Fail(e),
                Outcome::Waiting => whole.io == scan.io && whole.out is Waiting,
            }
        }),
{
    let q = no_limits();
    let scan = scanned(rules, io);
    let whole = magic_mounted(rules, tmp, io);
    scanned_only_reads(rules, io);
    lemma_weaken(io, scan, module_queries(), q);
    collected_tree_is_well_formed(rules, io);
    match scan.out {
        Outcome::Done(Some(root)) => {
            let device = "/".spec_bytes();
            let setup = perform(setup_steps(tmp), scan.io);
            assert(whole == magic_ready(tmp, root, setup));
            let tried = mounted(device, tmp, root, false, setup.io);
            let cleaned = perform(cleanup_steps(tmp), tried.io);
            steps_are_orderly(setup_steps(tmp), scan.io);
            mounting_is_orderly(device, tmp, root, false, setup.io);
            steps_are_orderly(cleanup_steps(tmp), tried.io);
            lemma_cleanup(tmp, tried.io);
            if setup.out is Done {
                assert(whole == magic_tried(tmp, tried));
                if !(tried.out is Waiting) {
                    lemma_recast(tried.io, cleaned, whole.out, q);
                }
                lemma_then(setup.io, tried, whole, q);
            }
            lemma_then(scan.io, setup, whole, q);
            lemma_truthful_parts(world, io, scan, whole, q);
            if setup.out is Done {
                lemma_truthful_parts(world, scan.io, setup, whole, q);
                if tried.out is Waiting {
                    assert(truthful(world, setup.io, tried));
                } else {
                    lemma_truthful_parts(world, setup.io, tried, whole, q);
                }
                mounted_nodes_are_shown(world, device, tmp, root, false, setup.io);
            } else {
                assert(truthful(world, scan.io, setup));
            }
            lemma_memory_made(world, tmp, scan.io);
            if whole.out is Done {
                let n = scan.io.asked.len() as int;
                let log = whole.io.asked;
                assert(log =~= tried.io.asked.push(Request::Unmount(tmp)).push(
                    Request::RemoveDir(tmp),
                ));
                lemma_prefix_kept(setup.io, whole);
                lemma_prefix_kept(setup.io, tried);
                assert(setup.io.asked =~= scan.io.asked + memory_requests(tmp));
                lemma_stand_at(scan.io.asked, memory_requests(tmp), log, n, n + 3);
                assert(agree(tried.io.asked, log, n + 3, log.len() - 2));
                lemma_shown_wider(
                    world,
                    tried.io.asked,
                    log,
                    n + 3,
                    log.len() - 2,
                    n + 3,
                    log.len() - 2,
                    device,
                    tmp,
                    root,
                    false,
                );
            }
        },
        _ => {},
    }
}

} // verus!
