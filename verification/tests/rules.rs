use magic_mount::protocol::{Entry, Error, FileKind, Machine, Reply, Request, Turn};
use magic_mount::rules::{
    is_partition_candidate, is_supported_partition, ModuleCheck, Rules, SupportCheck,
};

fn b(s: &str) -> Vec<u8> {
    s.as_bytes().to_vec()
}

/// Plays the host: each request has to be the one that is expected, and gets the reply that goes
/// with it.
fn converse<M: Machine>(
    turn: Turn<M>,
    resume: impl Fn(M, Reply) -> Turn<M>,
    script: Vec<(Request<Vec<u8>>, Reply)>,
) -> Result<M::Value, Error<Vec<u8>>> {
    let mut turn = turn;
    for (expected, reply) in script {
        match turn {
            Turn::Ask(request, machine) => {
                assert_eq!(request, expected);
                turn = resume(machine, reply);
            }
            Turn::Done(_) => panic!("ended before {:?}", expected),
            Turn::Fail(e) => panic!("failed with {:?} before {:?}", e, expected),
        }
    }
    match turn {
        Turn::Ask(request, _) => panic!("asked for {:?}", request),
        Turn::Done(value) => Ok(value),
        Turn::Fail(e) => Err(e),
    }
}

fn yes() -> Reply {
    Reply::Flag(true)
}

fn no() -> Reply {
    Reply::Flag(false)
}

fn is_there(path: &str) -> Request<Vec<u8>> {
    Request::Exists(b(path))
}

fn entry(name: &str, kind: FileKind) -> Option<Entry<Vec<u8>>> {
    Some(Entry { name: b(name), kind: Ok(kind) })
}

fn rules() -> Rules {
    Rules {
        module_dir: b("/modules"),
        disable_file: b("disable"),
        remove_file: b("remove"),
        skip_mount_file: b("skip_mount"),
        supported_partitions: vec![b("vendor"), b("odm")],
    }
}

fn check(script: Vec<(Request<Vec<u8>>, Reply)>) -> Result<bool, Error<Vec<u8>>> {
    converse(rules().check_module(&b("/modules/one")), ModuleCheck::resume, script)
}

fn supports(name: &str, script: Vec<(Request<Vec<u8>>, Reply)>) -> Result<bool, Error<Vec<u8>>> {
    converse(is_supported_partition(&rules(), &b(name)), SupportCheck::resume, script)
}

#[test]
fn described_and_unmarked_modules_take_part() {
    let taken = check(vec![
        (is_there("/modules/one/module.prop"), yes()),
        (is_there("/modules/one/disable"), no()),
        (is_there("/modules/one/remove"), no()),
        (is_there("/modules/one/skip_mount"), no()),
    ]);
    assert_eq!(taken, Ok(true));
}

#[test]
fn modules_without_description_are_left_out() {
    assert_eq!(check(vec![(is_there("/modules/one/module.prop"), no())]), Ok(false));
}

#[test]
fn disabled_modules_are_left_out() {
    let taken = check(vec![
        (is_there("/modules/one/module.prop"), yes()),
        (is_there("/modules/one/disable"), yes()),
    ]);
    assert_eq!(taken, Ok(false));
}

#[test]
fn modules_about_to_be_removed_are_left_out() {
    let taken = check(vec![
        (is_there("/modules/one/module.prop"), yes()),
        (is_there("/modules/one/disable"), no()),
        (is_there("/modules/one/remove"), yes()),
    ]);
    assert_eq!(taken, Ok(false));
}

#[test]
fn modules_kept_from_mounting_are_left_out() {
    let taken = check(vec![
        (is_there("/modules/one/module.prop"), yes()),
        (is_there("/modules/one/disable"), no()),
        (is_there("/modules/one/remove"), no()),
        (is_there("/modules/one/skip_mount"), yes()),
    ]);
    assert_eq!(taken, Ok(false));
}

#[test]
fn a_host_that_cannot_tell_says_no() {
    let taken = check(vec![(is_there("/modules/one/module.prop"), Reply::Failed(3))]);
    assert_eq!(taken, Ok(false));
}

#[test]
fn unlisted_partitions_are_not_supported() {
    assert_eq!(supports("data", vec![]), Ok(false));
}

#[test]
fn partitions_with_a_directory_are_supported() {
    assert_eq!(supports("odm", vec![(Request::IsDir(b("/odm")), yes())]), Ok(true));
}

#[test]
fn partitions_with_a_link_are_supported() {
    let found = supports(
        "vendor",
        vec![
            (Request::IsDir(b("/vendor")), no()),
            (Request::IsSymlink(b("/vendor")), yes()),
        ],
    );
    assert_eq!(found, Ok(true));
}

#[test]
fn partitions_that_the_device_lacks_are_not_supported() {
    let found = supports(
        "vendor",
        vec![
            (Request::IsDir(b("/vendor")), no()),
            (Request::IsSymlink(b("/vendor")), no()),
        ],
    );
    assert_eq!(found, Ok(false));
}

#[test]
fn special_directories_are_no_partitions() {
    assert!(is_partition_candidate(&entry("vendor", FileKind::Dir).unwrap()));
    assert!(is_partition_candidate(&entry("system", FileKind::Dir).unwrap()));
    assert!(!is_partition_candidate(&entry("vendor", FileKind::Symlink).unwrap()));
    assert!(!is_partition_candidate(&entry(".git", FileKind::Dir).unwrap()));
    assert!(!is_partition_candidate(&entry("install_scripts", FileKind::Dir).unwrap()));
    assert!(!is_partition_candidate(&Entry { name: b("vendor"), kind: Err(1) }));
    assert!(!is_partition_candidate(&Entry { name: vec![0xff], kind: Ok(FileKind::Dir) }));
    assert!(is_partition_candidate(&Entry { name: b("\u{e9}"), kind: Ok(FileKind::Dir) }));
}
