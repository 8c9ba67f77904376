//! The flags decide how modules are mounted and unmounted.

use vstd::prelude::*;

use crate::laws::device::says_yes;
use crate::laws::finding::{truthful, World};
use crate::overlay::{leftovers_unmounted, overlays_mounted, overlays_unmounted};
use crate::protocol::{ask, Io, Outcome, ReplyView, Request, Text};
use crate::session::{
    magic_mounted, mode_detected, modules_mounted, modules_unmounted, ConfigView, MountMode,
};

verus! {

/// Modules are mounted by overlays exactly if the flag for overlays is there. The flag for bind
/// mounts is looked for only if it is not, and makes no difference.
pub proof fn modes_follow_the_flags(world: World, overlay_flag: Text, magic_flag: Text, io: Io)
    requires
        truthful(world, io, mode_detected(overlay_flag, magic_flag, io)),
    ensures
        ({
            let run = mode_detected(overlay_flag, magic_flag, io);
            let overlay = Request::Exists(overlay_flag);
            let magic = Request::Exists(magic_flag);
            &&& !(run.out is Fail)
            &&& run.out matches Outcome::Done(mode) ==> if says_yes(world, overlay) {
                mode == MountMode::OverlayFs && run.io.asked == io.asked.push(overlay)
            } else {
                mode == MountMode::Magic && run.io.asked == io.asked.push(overlay).push(magic)
            }
        }),
{
    let run = mode_detected(overlay_flag, magic_flag, io);
    if io.rest.len() > 0 {
        assert(run.io.asked[io.asked.len() as int] == Request::Exists(overlay_flag));
    }
}

/// When the flags have been looked for, mounting goes on with the same conversation: by overlays,
/// with the directory for what overlays need, if the flag for them is there, and otherwise by bind
/// mounts, with the directory for the memory file system.
pub proof fn mounting_goes_on_by_mode(config: ConfigView, io: Io)
    requires
        io.rest.len() >= 2,
    ensures
        ({
            let first = ask(io, Request::Exists(config.overlay_flag)).io;
            let second = ask(first, Request::Exists(config.magic_flag)).io;
            &&& io.rest[0] == ReplyView::Flag(true) ==> modules_mounted(config, io)
                == overlays_mounted(config.rules, config.overlay_work_dir, first)
            &&& io.rest[0] != ReplyView::Flag(true) ==> modules_mounted(config, io)
                == magic_mounted(config.rules, config.mount_source, second)
        }),
{
}

/// When the flags have been looked for, unmounting goes on with the same conversation: it takes all
/// overlays back if the flag for them is there, and those that are left otherwise.
pub proof fn unmounting_goes_on_by_mode(config: ConfigView, io: Io)
    requires
        io.rest.len() >= 2,
    ensures
        ({
            let first = ask(io, Request::Exists(config.overlay_flag)).io;
            let second = ask(first, Request::Exists(config.magic_flag)).io;
            &&& io.rest[0] == ReplyView::Flag(true) ==> modules_unmounted(config, io)
                == overlays_unmounted(config.overlay_work_dir, first)
            &&& io.rest[0] != ReplyView::Flag(true) ==> modules_unmounted(config, io)
                == leftovers_unmounted(config.overlay_work_dir, second)
        }),
{
}

} // verus!
