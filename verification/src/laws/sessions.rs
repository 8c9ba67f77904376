//! What holds from beginning to end.

use vstd::prelude::*;
use vstd::string::is_ascii_spec_bytes;
#[allow(unused_imports)]
use vstd::string::StringSliceAdditionalSpecFns;

use crate::bytes::joined;
use crate::laws::collection::{collected_tree_is_well_formed, well_collected};
use crate::laws::conversation::{
    lemma_end, lemma_proceeds, lemma_recast, lemma_replies_stay, lemma_then, lemma_weaken,
    proceeds, Limits,
};
use crate::laws::directories::device_directories_fail_only_unlisted;
use crate::laws::mounting::{
    confined, is_confined, mounting_stays_confined, ready, Places,
};
use crate::laws::overlays::lemma_simple_steps;
use crate::laws::reading::{is_host_error, module_queries, scanned_only_reads};
use crate::laws::tree::{from_below, plain_replies, plain_reply};
use crate::mount::mounted;
use crate::node::NodeView;
use crate::overlay::overlays_mounted;
use crate::protocol::{
    ask, done, flag_of, Error, Io, Outcome, ReplyView, Request, Run, Text,
};
use crate::rules::{marker_paths, none_exists, supported, takes_part, RulesView};
use crate::scan::scanned;
use crate::script::{attempt, perform, perform_reply, Purpose, Step};
use crate::session::{
    cleanup_steps, magic_mounted, magic_ready, magic_tried, mode_detected, modules_mounted,
    setup_steps, ConfigView, MountMode,
};

verus! {

/// The flag for overlays comes before the flag for bind mounts, and bind mounts are what is done
/// where there is neither.
pub proof fn overlay_flag_comes_first(overlay_flag: Text, magic_flag: Text, io: Io)
    requires
        io.rest.len() >= 2,
    ensures
        mode_detected(overlay_flag, magic_flag, io).out == Outcome::Done(
            if flag_of(io.rest[0]) {
                MountMode::OverlayFs
            } else {
                MountMode::Magic
            },
        ),
{
}

/// A module takes part exactly if it is described and has none of the three marks against it.
pub proof fn unmarked_modules_take_part(rules: RulesView, path: Text, io: Io)
    requires
        io.rest.len() >= 4,
    ensures
        takes_part(rules, path, io).out == Outcome::Done(
            flag_of(io.rest[0]) && !flag_of(io.rest[1]) && !flag_of(io.rest[2]) && !flag_of(
                io.rest[3],
            ),
        ),
{
    let paths = marker_paths(rules, path);
    let first = ask(io, Request::Exists(joined(path, "module.prop".spec_bytes())));
    let second = ask(first.io, Request::Exists(paths[0]));
    let third = ask(second.io, Request::Exists(paths[1]));
    let fourth = ask(third.io, Request::Exists(paths[2]));
    assert(first.io.rest[0] == io.rest[1]);
    assert(second.io.rest[0] == io.rest[2]);
    assert(third.io.rest[0] == io.rest[3]);
    assert(none_exists(paths, 3, fourth.io) == done(fourth.io, true));
    assert(!flag_of(io.rest[3]) ==> none_exists(paths, 2, third.io).out == Outcome::Done(true));
    assert(flag_of(io.rest[3]) ==> none_exists(paths, 2, third.io).out == Outcome::Done(false));
    assert(!flag_of(io.rest[2]) ==> none_exists(paths, 1, second.io) == none_exists(
        paths,
        2,
        third.io,
    ));
    assert(!flag_of(io.rest[1]) ==> none_exists(paths, 0, first.io) == none_exists(
        paths,
        1,
        second.io,
    ));
}

/// A name stands for a supported partition exactly if it is listed and the device has a directory
/// or a symbolic link of that name.
pub proof fn supported_partitions_are_on_the_device(rules: RulesView, name: Text, io: Io)
    requires
        io.rest.len() >= 2,
    ensures
        supported(rules, name, io).out == Outcome::Done(
            rules.supported_partitions.contains(name) && (flag_of(io.rest[0]) || flag_of(
                io.rest[1],
            )),
        ),
{
}

/// A request of a session with bind mounts: the memory file system is set up, used and taken away,
/// and everything else stays within its places.
pub open spec fn is_session_request(places: Places, request: Request<Text>) -> bool {
    ||| is_confined(places, request)
    ||| request == Request::EnsureDir(places.work)
    ||| request == Request::MountTmpfs(places.work)
    ||| request == Request::MakePrivate(places.work)
    ||| request == Request::Unmount(places.work)
    ||| request == Request::RemoveDir(places.work)
}

/// A session stays within its places. It ends with no error but the host's and that of a module's
/// name that is not text.
pub open spec fn session_limits(places: Places) -> Limits {
    Limits {
        allowed: |r: Request<Text>| is_session_request(places, r),
        excused: |e: Error<Text>| is_host_error(e) || e is ModuleName,
    }
}

/// The places of a session with bind mounts.
pub open spec fn session_places(rules: RulesView, tmp: Text) -> Places {
    Places { modules: rules.module_dir, device: "/".spec_bytes(), work: tmp, sealed: false }
}

/// A session with bind mounts stays within its places: it creates and changes files on its memory
/// file system only, and never meets a node that no module provides.
pub proof fn magic_sessions_stay_confined(rules: RulesView, tmp: Text, io: Io)
    requires
        plain_replies(io),
    ensures
        proceeds(
            io,
            magic_mounted(rules, tmp, io),
            session_limits(session_places(rules, tmp)),
        ),
{
    let places = session_places(rules, tmp);
    let limits = session_limits(places);
    let run = scanned(rules, io);
    let whole = magic_mounted(rules, tmp, io);
    scanned_only_reads(rules, io);
    collected_tree_is_well_formed(rules, io);
    lemma_weaken(io, run, module_queries(), limits);
    match run.out {
        Outcome::Done(Some(root)) => {
            lemma_replies_stay(io, run, limits, |r: ReplyView| plain_reply(r));
            lemma_ready_session(rules, tmp, root, run.io);
        },
        Outcome::Done(None) => {
            lemma_end(run.io, Outcome::Done(()), limits);
        },
        _ => {},
    }
    lemma_then(io, run, whole, limits);
}

/// A session stays within its places once the files are collected.
proof fn lemma_ready_session(rules: RulesView, tmp: Text, root: NodeView, io: Io)
    requires
        plain_replies(io),
        well_collected(rules, root),
        from_below(rules.module_dir, root),
    ensures
        proceeds(
            io,
            magic_ready(tmp, root, perform(setup_steps(tmp), io)),
            session_limits(session_places(rules, tmp)),
        ),
{
    let places = session_places(rules, tmp);
    let limits = session_limits(places);
    let device = "/".spec_bytes();
    let setup = perform(setup_steps(tmp), io);
    let whole = magic_ready(tmp, root, setup);
    assert(tmp.take(tmp.len() as int) =~= tmp);
    assert(device.take(device.len() as int) =~= device);
    lemma_simple_steps(setup_steps(tmp), io, limits);
    match setup.out {
        Outcome::Done(_) => {
            let tried = mounted(device, tmp, root, false, setup.io);
            lemma_replies_stay(io, setup, limits, |r: ReplyView| plain_reply(r));
            assert(ready(places, root, false));
            mounting_stays_confined(places, device, tmp, root, false, setup.io);
            lemma_weaken(setup.io, tried, confined(places), limits);
            assert(whole == magic_tried(tmp, tried));
            match tried.out {
                Outcome::Waiting => {},
                _ => {
                    let cleaned = perform(cleanup_steps(tmp), tried.io);
                    lemma_simple_steps(cleanup_steps(tmp), tried.io, limits);
                    lemma_cleanup(tmp, tried.io);
                    lemma_proceeds(setup.io, tried, limits);
                    lemma_recast(tried.io, cleaned, whole.out, limits);
                },
            }
            lemma_then(setup.io, tried, whole, limits);
        },
        _ => {},
    }
    lemma_then(io, setup, whole, limits);
}

/// Taking the memory file system away asks for two things and does not fail.
pub proof fn lemma_cleanup(tmp: Text, io: Io)
    ensures
        !(perform(cleanup_steps(tmp), io).out is Fail),
        io.rest.len() < 2 ==> perform(cleanup_steps(tmp), io).out is Waiting,
        io.rest.len() >= 2 ==> perform(cleanup_steps(tmp), io) == done(
            Io {
                asked: io.asked.push(Request::Unmount(tmp)).push(Request::RemoveDir(tmp)),
                rest: io.rest.skip(2),
            },
            (),
        ),
{
    let steps = cleanup_steps(tmp);
    let last = seq![attempt(Request::RemoveDir(tmp))];
    let none = Seq::<Step<Text>>::empty();
    let first = ask(io, Request::Unmount(tmp));
    assert(steps.drop_first() =~= last);
    assert(none + last =~= last);
    match first.out {
        Outcome::Done(reply) => {
            assert(perform(steps, io) == perform_reply(Purpose::Attempt, last, reply, first.io));
            assert(perform(steps, io) == perform(last, first.io));
            let second = ask(first.io, Request::RemoveDir(tmp));
            assert(last.drop_first() =~= none);
            assert(none + none =~= none);
            match second.out {
                Outcome::Done(reply) => {
                    assert(perform(last, first.io) == perform_reply(
                        Purpose::Attempt,
                        none,
                        reply,
                        second.io,
                    ));
                    assert(perform(none, second.io) == done(second.io, ()));
                    assert(second.io.rest =~= io.rest.skip(2));
                },
                _ => {},
            }
        },
        _ => {},
    }
}

/// Once the memory file system is there, it is unmounted and its directory removed in the end,
/// whether mounting the tree succeeded or failed. The session ends as mounting the tree did.
pub proof fn magic_sessions_clean_up(tmp: Text, root: NodeView, setup: Run<()>)
    requires
        setup.out is Done,
        ({
            let tried = mounted("/".spec_bytes(), tmp, root, false, setup.io);
            !(tried.out is Waiting) && tried.io.rest.len() >= 2
        }),
    ensures
        ({
            let tried = mounted("/".spec_bytes(), tmp, root, false, setup.io);
            let whole = magic_ready(tmp, root, setup);
            &&& whole.out == tried.out
            &&& whole.io.asked == tried.io.asked.push(Request::Unmount(tmp)).push(
                Request::RemoveDir(tmp),
            )
            &&& whole.io.rest == tried.io.rest.skip(2)
        }),
{
    let tried = mounted("/".spec_bytes(), tmp, root, false, setup.io);
    lemma_cleanup(tmp, tried.io);
    match tried.out {
        Outcome::Done(u) => {
            assert(u == ());
        },
        _ => {},
    }
}

/// Where modules have nothing to mount, a session changes nothing and succeeds.
pub proof fn empty_sessions_change_nothing(rules: RulesView, tmp: Text, io: Io)
    requires
        scanned(rules, io).out == Outcome::<Option<NodeView>>::Done(None),
    ensures
        magic_mounted(rules, tmp, io).out == Outcome::Done(()),
        proceeds(io, magic_mounted(rules, tmp, io), module_queries()),
{
    let run = scanned(rules, io);
    scanned_only_reads(rules, io);
    lemma_recast(io, run, Outcome::Done(()), module_queries());
}

/// Once the files are collected and the memory file system is there, a session fails only where
/// the device's root cannot be listed. No single file can make it fail.
pub proof fn single_files_do_not_fail_sessions(rules: RulesView, tmp: Text, io: Io)
    requires
        scanned(rules, io).out matches Outcome::Done(Some(_)),
        perform(setup_steps(tmp), scanned(rules, io).io).out is Done,
        magic_mounted(rules, tmp, io).out is Fail,
    ensures
        ({
            let root = scanned(rules, io).out->Done_0->0;
            let setup = perform(setup_steps(tmp), scanned(rules, io).io);
            let tried = mounted("/".spec_bytes(), tmp, root, false, setup.io);
            &&& tried.out is Fail
            &&& tried.io.asked.len() > 0
            &&& tried.io.asked.last() == Request::ListDir("/".spec_bytes())
        }),
{
    let root = scanned(rules, io).out->Done_0->0;
    let setup = perform(setup_steps(tmp), scanned(rules, io).io);
    let tried = mounted("/".spec_bytes(), tmp, root, false, setup.io);
    collected_tree_is_well_formed(rules, io);
    device_directories_fail_only_unlisted("/".spec_bytes(), tmp, root, setup.io);
    lemma_cleanup(tmp, tried.io);
    lemma_root_path();
}

/// The root of the tree stands for the device's root.
proof fn lemma_root_path()
    ensures
        joined("/".spec_bytes(), "".spec_bytes()) == "/".spec_bytes(),
{
    reveal_strlit("/");
    reveal_strlit("");
    is_ascii_spec_bytes("/");
    is_ascii_spec_bytes("");
    assert("/".spec_bytes()[0] == 47);
    assert("/".spec_bytes() + "".spec_bytes() =~= "/".spec_bytes());
}

/// Mounting does what the flags ask for.
pub proof fn modules_are_mounted_by_mode(config: ConfigView, io: Io)
    requires
        io.rest.len() >= 2,
    ensures
        ({
            let detected = mode_detected(config.overlay_flag, config.magic_flag, io);
            modules_mounted(config, io) == (if flag_of(io.rest[0]) {
                overlays_mounted(config.rules, config.overlay_work_dir, detected.io)
            } else {
                magic_mounted(config.rules, config.mount_source, detected.io)
            })
        }),
{
}

} // verus!
