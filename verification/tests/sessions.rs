use magic_mount::protocol::{
    Entry, Error, FileKind, Machine, Metadata, Reply, Request, Task, Turn,
};
use magic_mount::rules::Rules;
use magic_mount::session::{
    magic_mount, mount_modules, unmount_all, Config, Detecting, MagicMounting, MountMode,
    MountSession, UnmountSession,
};

fn b(s: &str) -> Vec<u8> {
    s.as_bytes().to_vec()
}

/// Plays the host: each request has to be the one that is expected, and gets the reply that goes
/// with it.
fn converse<M: Machine>(
    turn: Turn<M>,
    resume: impl Fn(M, Reply) -> Turn<M>,
    script: Vec<(Request<Vec<u8>>, Reply)>,
) -> Result<M::Value, Error<Vec<u8>>> {
    let mut turn = turn;
    for (expected, reply) in script {
        match turn {
            Turn::Ask(request, machine) => {
                assert_eq!(request, expected);
                turn = resume(machine, reply);
            }
            Turn::Done(_) => panic!("ended before {:?}", expected),
            Turn::Fail(e) => panic!("failed with {:?} before {:?}", e, expected),
        }
    }
    match turn {
        Turn::Ask(request, _) => panic!("asked for {:?}", request),
        Turn::Done(value) => Ok(value),
        Turn::Fail(e) => Err(e),
    }
}

fn yes() -> Reply {
    Reply::Flag(true)
}

fn no() -> Reply {
    Reply::Flag(false)
}

fn is_there(path: &str) -> Request<Vec<u8>> {
    Request::Exists(b(path))
}

fn list(path: &str) -> Request<Vec<u8>> {
    Request::ListDir(b(path))
}

fn entry(name: &str, kind: FileKind) -> Option<Entry<Vec<u8>>> {
    Some(Entry { name: b(name), kind: Ok(kind) })
}

fn config() -> Config {
    Config {
        rules: Rules {
            module_dir: b("/modules"),
            disable_file: b("disable"),
            remove_file: b("remove"),
            skip_mount_file: b("skip_mount"),
            supported_partitions: vec![b("vendor"), b("odm"), b("system")],
        },
        mount_source: b("/source"),
        overlay_work_dir: b("/work"),
        overlay_flag: b("/flags/overlay"),
        magic_flag: b("/flags/magic"),
    }
}

fn detect(script: Vec<(Request<Vec<u8>>, Reply)>) -> Result<MountMode, Error<Vec<u8>>> {
    converse(MountMode::detect(b"/flags/overlay", b"/flags/magic"), Detecting::resume, script)
}

/// One module has one file for the system partition.
fn one_file() -> Vec<(Request<Vec<u8>>, Reply)> {
    let mut script = vec![
        (list("/modules"), Reply::Listing(vec![entry("one", FileKind::Dir)])),
        (is_there("/modules/one/module.prop"), yes()),
        (is_there("/modules/one/disable"), no()),
        (is_there("/modules/one/remove"), no()),
        (is_there("/modules/one/skip_mount"), no()),
        (Request::IsDir(b("/modules/one/system")), yes()),
        (list("/modules/one/system"), Reply::Listing(vec![entry("f", FileKind::File)])),
        (Request::Lstat(b("/modules/one/system/f")), stat(FileKind::File)),
        (list("/modules/one"), Reply::Listing(vec![entry("system", FileKind::Dir)])),
    ];
    for partition in ["/vendor", "/system_ext", "/product", "/odm", "/oem"] {
        script.push((Request::IsDir(b(partition)), no()));
    }
    script
}

fn stat(kind: FileKind) -> Reply {
    Reply::Stat(Metadata { kind, rdev: 0, mode: 0o644, uid: 0, gid: 0 })
}

fn setup() -> Vec<(Request<Vec<u8>>, Reply)> {
    vec![
        (Request::EnsureDir(b("/source")), Reply::Done),
        (Request::MountTmpfs(b("/source")), Reply::Done),
        (Request::MakePrivate(b("/source")), Reply::Done),
    ]
}

fn cleanup() -> Vec<(Request<Vec<u8>>, Reply)> {
    vec![
        (Request::Unmount(b("/source")), Reply::Failed(16)),
        (Request::RemoveDir(b("/source")), Reply::Failed(39)),
    ]
}

/// The device has the file, so that it is bound over.
fn binding(reply: Reply) -> Vec<(Request<Vec<u8>>, Reply)> {
    vec![
        (Request::Lstat(b("/system")), stat(FileKind::Dir)),
        (is_there("/"), yes()),
        (list("/"), Reply::Listing(vec![entry("system", FileKind::Dir)])),
        (Request::Lstat(b("/system/f")), stat(FileKind::File)),
        (is_there("/system"), yes()),
        (list("/system"), Reply::Listing(vec![entry("f", FileKind::File)])),
        (
            Request::BindMount { source: b("/modules/one/system/f"), target: b("/system/f") },
            reply,
        ),
    ]
}

fn magic(script: Vec<(Request<Vec<u8>>, Reply)>) -> Result<(), Error<Vec<u8>>> {
    converse(magic_mount(config()), MagicMounting::resume, script)
}

#[test]
fn the_overlay_flag_comes_first() {
    let mode = detect(vec![(is_there("/flags/overlay"), yes())]);
    assert_eq!(mode, Ok(MountMode::OverlayFs));
}

#[test]
fn the_magic_flag_comes_second() {
    let mode = detect(vec![(is_there("/flags/overlay"), no()), (is_there("/flags/magic"), yes())]);
    assert_eq!(mode, Ok(MountMode::Magic));
}

#[test]
fn bind_mounts_are_the_default() {
    let mode = detect(vec![(is_there("/flags/overlay"), no()), (is_there("/flags/magic"), no())]);
    assert_eq!(mode, Ok(MountMode::Magic));
}

#[test]
fn a_session_mounts_and_cleans_up() {
    let mut script = one_file();
    script.extend(setup());
    script.extend(binding(Reply::Done));
    script.extend(cleanup());
    assert_eq!(magic(script), Ok(()));
}

#[test]
fn a_file_that_cannot_be_bound_does_not_fail_a_session() {
    let mut script = one_file();
    script.extend(setup());
    script.extend(binding(Reply::Failed(22)));
    script.extend(cleanup());
    assert_eq!(magic(script), Ok(()));
}

#[test]
fn a_session_that_fails_cleans_up_too() {
    let mut script = one_file();
    script.extend(setup());
    script.extend(vec![
        (Request::Lstat(b("/system")), stat(FileKind::Dir)),
        (is_there("/"), yes()),
        (list("/"), Reply::Failed(13)),
    ]);
    script.extend(cleanup());
    assert_eq!(magic(script), Err(Error::Failed(13)));
}

#[test]
fn a_session_fails_without_its_memory_file_system() {
    let mut script = one_file();
    script.extend(vec![
        (Request::EnsureDir(b("/source")), Reply::Done),
        (Request::MountTmpfs(b("/source")), Reply::Failed(1)),
    ]);
    let expected = Error::Within(Task::MountTmp, Box::new(Error::Failed(1)));
    assert_eq!(magic(script), Err(expected));
}

#[test]
fn a_session_without_modules_does_nothing() {
    assert_eq!(magic(vec![(list("/modules"), Reply::Listing(vec![]))]), Ok(()));
}

#[test]
fn a_session_fails_where_collecting_fails() {
    assert_eq!(magic(vec![(list("/modules"), Reply::Failed(2))]), Err(Error::Failed(2)));
}

#[test]
fn modules_are_mounted_by_binding_without_flags() {
    let mut script = vec![(is_there("/flags/overlay"), no()), (is_there("/flags/magic"), no())];
    script.extend(one_file());
    script.extend(setup());
    script.extend(binding(Reply::Done));
    script.extend(cleanup());
    assert_eq!(converse(mount_modules(config()), MountSession::resume, script), Ok(()));
}

#[test]
fn modules_are_mounted_by_overlays_where_asked_for() {
    let script = vec![
        (is_there("/flags/overlay"), yes()),
        (is_there("/proc/filesystems"), yes()),
        (Request::ReadText(b("/proc/filesystems")), Reply::Data(b("nodev\toverlay\n"))),
        (list("/modules"), Reply::Listing(vec![])),
    ];
    assert_eq!(converse(mount_modules(config()), MountSession::resume, script), Ok(()));
}

#[test]
fn bind_mounts_need_no_unmounting() {
    let script = vec![
        (is_there("/flags/overlay"), no()),
        (is_there("/flags/magic"), yes()),
        (is_there("/work"), no()),
    ];
    assert_eq!(converse(unmount_all(config()), UnmountSession::resume, script), Ok(()));
}

#[test]
fn without_an_overlay_that_is_left_the_work_directory_stays() {
    let script = vec![
        (is_there("/flags/overlay"), no()),
        (is_there("/flags/magic"), no()),
        (is_there("/work"), yes()),
        (
            list("/work"),
            Reply::Listing(vec![
                entry("odm", FileKind::Dir),
                entry("notes", FileKind::File),
                entry("vendor", FileKind::Dir),
            ]),
        ),
        (is_there("/odm/.overlayfs_mounted"), no()),
        (is_there("/vendor/.overlayfs_mounted"), no()),
    ];
    assert_eq!(converse(unmount_all(config()), UnmountSession::resume, script), Ok(()));
}

#[test]
fn an_empty_work_directory_stays_where_bind_mounts_are_made() {
    let script = vec![
        (is_there("/flags/overlay"), no()),
        (is_there("/flags/magic"), yes()),
        (is_there("/work"), yes()),
        (list("/work"), Reply::Listing(vec![])),
    ];
    assert_eq!(converse(unmount_all(config()), UnmountSession::resume, script), Ok(()));
}

#[test]
fn a_work_directory_that_cannot_be_listed_is_left_alone_where_bind_mounts_are_made() {
    let script = vec![
        (is_there("/flags/overlay"), no()),
        (is_there("/flags/magic"), no()),
        (is_there("/work"), yes()),
        (list("/work"), Reply::Failed(13)),
    ];
    assert_eq!(converse(unmount_all(config()), UnmountSession::resume, script), Ok(()));
}

#[test]
fn an_overlay_that_is_left_and_cannot_be_unmounted_keeps_its_marker() {
    let script = vec![
        (is_there("/flags/overlay"), no()),
        (is_there("/flags/magic"), no()),
        (is_there("/work"), yes()),
        (
            list("/work"),
            Reply::Listing(vec![entry("odm", FileKind::Dir), entry("vendor", FileKind::Dir)]),
        ),
        (is_there("/odm/.overlayfs_mounted"), yes()),
        (Request::Unmount(b("/odm")), Reply::Failed(16)),
        (is_there("/vendor/.overlayfs_mounted"), no()),
        (Request::RemoveTree(b("/work")), Reply::Done),
    ];
    assert_eq!(converse(unmount_all(config()), UnmountSession::resume, script), Ok(()));
}

#[test]
fn overlays_are_unmounted_after_a_change_to_bind_mounts() {
    let script = vec![
        (is_there("/flags/overlay"), no()),
        (is_there("/flags/magic"), no()),
        (is_there("/work"), yes()),
        (list("/work"), Reply::Listing(vec![entry("odm", FileKind::Dir)])),
        (is_there("/odm/.overlayfs_mounted"), yes()),
        (Request::Unmount(b("/odm")), Reply::Done),
        (Request::RemoveFile(b("/odm/.overlayfs_mounted")), Reply::Done),
        (Request::RemoveTree(b("/work")), Reply::Done),
    ];
    assert_eq!(converse(unmount_all(config()), UnmountSession::resume, script), Ok(()));
}

#[test]
fn overlays_are_unmounted() {
    let script = vec![
        (is_there("/flags/overlay"), yes()),
        (is_there("/work"), yes()),
        (list("/work"), Reply::Listing(vec![entry("odm", FileKind::Dir)])),
        (is_there("/odm/.overlayfs_mounted"), yes()),
        (Request::Unmount(b("/odm")), Reply::Done),
        (Request::RemoveFile(b("/odm/.overlayfs_mounted")), Reply::Done),
        (Request::RemoveTree(b("/work")), Reply::Done),
    ];
    assert_eq!(converse(unmount_all(config()), UnmountSession::resume, script), Ok(()));
}

#[test]
fn the_error_tells_that_the_memory_file_system_could_not_be_made_private() {
    let mut script = one_file();
    script.push((Request::EnsureDir(b("/source")), Reply::Done));
    script.push((Request::MountTmpfs(b("/source")), Reply::Done));
    script.push((Request::MakePrivate(b("/source")), Reply::Failed(1)));
    let expected = Error::Within(Task::MakeTmpPrivate, Box::new(Error::Failed(1)));
    assert_eq!(magic(script), Err(expected));
}
