use magic_mount::protocol::{
    Entry, Error, FileKind, Machine, Metadata, Reply, Request, Turn,
};
use magic_mount::script::{
    clone_symlink, may_fail, mount_mirror, must_succeed, perform_steps, prepare_tmpfs_skeleton,
    Script, Step,
};

fn b(s: &str) -> Vec<u8> {
    s.as_bytes().to_vec()
}

/// Plays the host: each request has to be the one that is expected, and gets the reply that goes
/// with it.
fn converse<M: Machine>(
    turn: Turn<M>,
    resume: impl Fn(M, Reply) -> Turn<M>,
    script: Vec<(Request<Vec<u8>>, Reply)>,
) -> Result<M::Value, Error<Vec<u8>>> {
    let mut turn = turn;
    for (expected, reply) in script {
        match turn {
            Turn::Ask(request, machine) => {
                assert_eq!(request, expected);
                turn = resume(machine, reply);
            }
            Turn::Done(_) => panic!("ended before {:?}", expected),
            Turn::Fail(e) => panic!("failed with {:?} before {:?}", e, expected),
        }
    }
    match turn {
        Turn::Ask(request, _) => panic!("asked for {:?}", request),
        Turn::Done(value) => Ok(value),
        Turn::Fail(e) => Err(e),
    }
}

fn yes() -> Reply {
    Reply::Flag(true)
}

fn no() -> Reply {
    Reply::Flag(false)
}

fn is_there(path: &str) -> Request<Vec<u8>> {
    Request::Exists(b(path))
}

fn list(path: &str) -> Request<Vec<u8>> {
    Request::ListDir(b(path))
}

fn entry(name: &str, kind: FileKind) -> Option<Entry<Vec<u8>>> {
    Some(Entry { name: b(name), kind: Ok(kind) })
}

fn stat(mode: u32) -> Reply {
    Reply::Stat(Metadata { kind: FileKind::Dir, rdev: 0, mode, uid: 1000, gid: 2000 })
}

fn set_mode(path: &str, mode: u32) -> Request<Vec<u8>> {
    Request::SetMode { path: b(path), mode }
}

fn set_owner(path: &str) -> Request<Vec<u8>> {
    Request::SetOwner { path: b(path), uid: 1000, gid: 2000 }
}

fn get_label(path: &str) -> Request<Vec<u8>> {
    Request::GetLabel(b(path))
}

fn set_label(path: &str) -> Request<Vec<u8>> {
    Request::SetLabel { path: b(path), label: b("u:object_r:system_file:s0") }
}

fn label() -> Reply {
    Reply::Data(b("u:object_r:system_file:s0"))
}

fn bind(source: &str, target: &str) -> Request<Vec<u8>> {
    Request::BindMount { source: b(source), target: b(target) }
}

fn mirror(
    mirrored: Option<Entry<Vec<u8>>>,
    script: Vec<(Request<Vec<u8>>, Reply)>,
) -> Result<(), Error<Vec<u8>>> {
    let turn = mount_mirror(b"/system/etc", b"/tmp/system/etc", &mirrored.unwrap());
    converse(turn, Script::resume, script)
}

fn perform(
    steps: Vec<Step<Vec<u8>>>,
    script: Vec<(Request<Vec<u8>>, Reply)>,
) -> Result<(), Error<Vec<u8>>> {
    converse(perform_steps(steps), Script::resume, script)
}

#[test]
fn files_are_mirrored_by_binding() {
    let result = mirror(
        entry("hosts", FileKind::File),
        vec![
            (Request::CreateFile(b("/tmp/system/etc/hosts")), Reply::Done),
            (bind("/system/etc/hosts", "/tmp/system/etc/hosts"), Reply::Done),
        ],
    );
    assert_eq!(result, Ok(()));
}

#[test]
fn links_are_mirrored_by_making_them_again() {
    let result = mirror(
        entry("link", FileKind::Symlink),
        vec![
            (Request::ReadLink(b("/system/etc/link")), Reply::Data(b("../bin/sh"))),
            (
                Request::MakeSymlink { target: b("../bin/sh"), link: b("/tmp/system/etc/link") },
                Reply::Done,
            ),
            (get_label("/system/etc/link"), label()),
            (set_label("/tmp/system/etc/link"), Reply::Done),
        ],
    );
    assert_eq!(result, Ok(()));
}

#[test]
fn directories_are_mirrored_with_attributes_and_contents() {
    let result = mirror(
        entry("dir", FileKind::Dir),
        vec![
            (Request::CreateDir(b("/tmp/system/etc/dir")), Reply::Done),
            (Request::Lstat(b("/system/etc/dir")), stat(0o40755)),
            (set_mode("/tmp/system/etc/dir", 0o755), Reply::Done),
            (set_owner("/tmp/system/etc/dir"), Reply::Done),
            (get_label("/system/etc/dir"), label()),
            (set_label("/tmp/system/etc/dir"), Reply::Done),
            (
                list("/system/etc/dir"),
                Reply::Listing(vec![
                    entry("a", FileKind::File),
                    None,
                    entry("fifo", FileKind::Other),
                    entry("b", FileKind::File),
                ]),
            ),
            (Request::CreateFile(b("/tmp/system/etc/dir/a")), Reply::Done),
            (bind("/system/etc/dir/a", "/tmp/system/etc/dir/a"), Reply::Done),
            (Request::CreateFile(b("/tmp/system/etc/dir/b")), Reply::Done),
            (bind("/system/etc/dir/b", "/tmp/system/etc/dir/b"), Reply::Done),
        ],
    );
    assert_eq!(result, Ok(()));
}

#[test]
fn devices_and_the_like_are_not_mirrored() {
    assert_eq!(mirror(entry("fifo", FileKind::Other), vec![]), Ok(()));
    assert_eq!(mirror(entry("tty", FileKind::CharDevice), vec![]), Ok(()));
}

#[test]
fn entries_of_unknown_kind_cannot_be_mirrored() {
    let result = mirror(Some(Entry { name: b("x"), kind: Err(11) }), vec![]);
    assert_eq!(result, Err(Error::Failed(11)));
}

#[test]
fn mirroring_stops_at_the_first_failure() {
    let result = mirror(
        entry("hosts", FileKind::File),
        vec![(Request::CreateFile(b("/tmp/system/etc/hosts")), Reply::Failed(28))],
    );
    assert_eq!(result, Err(Error::Failed(28)));
}

#[test]
fn permissions_are_those_of_the_mode_without_the_file_type() {
    let result = perform(
        prepare_tmpfs_skeleton(b"/system/etc", b"/tmp/system/etc", None),
        vec![
            (Request::CreateDirAll(b("/tmp/system/etc")), Reply::Done),
            (is_there("/system/etc"), yes()),
            (Request::Stat(b("/system/etc")), stat(0o106751)),
            (set_mode("/tmp/system/etc", 0o6751), Reply::Done),
            (set_owner("/tmp/system/etc"), Reply::Done),
            (get_label("/system/etc"), label()),
            (set_label("/tmp/system/etc"), Reply::Done),
        ],
    );
    assert_eq!(result, Ok(()));
}

#[test]
fn a_missing_directory_is_built_like_that_of_the_module() {
    let result = perform(
        prepare_tmpfs_skeleton(b"/system/new", b"/tmp/system/new", Some(b("/m/system/new"))),
        vec![
            (Request::CreateDirAll(b("/tmp/system/new")), Reply::Done),
            (is_there("/system/new"), no()),
            (Request::Stat(b("/m/system/new")), stat(0o40700)),
            (set_mode("/tmp/system/new", 0o700), Reply::Done),
            (set_owner("/tmp/system/new"), Reply::Done),
            (get_label("/m/system/new"), label()),
            (set_label("/tmp/system/new"), Reply::Done),
        ],
    );
    assert_eq!(result, Ok(()));
}

#[test]
fn a_missing_directory_of_the_device_cannot_be_built() {
    let result = perform(
        prepare_tmpfs_skeleton(b"/odm", b"/tmp/odm", None),
        vec![
            (Request::CreateDirAll(b("/tmp/odm")), Reply::Done),
            (is_there("/odm"), no()),
        ],
    );
    assert_eq!(result, Err(Error::RootDir(b("/odm"))));
}

#[test]
fn attempts_may_fail() {
    let result = perform(
        vec![may_fail(Request::Unmount(b("/tmp"))), must_succeed(Request::RemoveDir(b("/tmp")))],
        vec![
            (Request::Unmount(b("/tmp")), Reply::Failed(16)),
            (Request::RemoveDir(b("/tmp")), Reply::Done),
        ],
    );
    assert_eq!(result, Ok(()));
}

#[test]
fn later_steps_follow_only_success() {
    let steps = || {
        vec![
            must_succeed(Request::EnsureDir(b("/a"))),
            must_succeed(Request::EnsureDir(b("/b"))),
        ]
    };
    let all = perform(
        steps(),
        vec![
            (Request::EnsureDir(b("/a")), Reply::Done),
            (Request::EnsureDir(b("/b")), Reply::Done),
        ],
    );
    assert_eq!(all, Ok(()));
    let stopped = perform(steps(), vec![(Request::EnsureDir(b("/a")), Reply::Failed(1))]);
    assert_eq!(stopped, Err(Error::Failed(1)));
}

#[test]
fn replies_have_to_answer_the_request() {
    let result = perform(
        vec![clone_symlink(b"/m/link", b"/tmp/link")],
        vec![(Request::ReadLink(b("/m/link")), Reply::Done)],
    );
    assert_eq!(result, Err(Error::WrongReply));
}

#[test]
fn giving_up_is_a_step() {
    let result = perform(vec![Step::Abort(Error::NoOverlay)], vec![]);
    assert_eq!(result, Err(Error::NoOverlay));
}
