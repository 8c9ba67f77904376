use magic_mount::overlay::Partition;
use magic_mount::overlaying::{
    collect_overlayfs_partitions, do_overlayfs_mount, mount_options, unmount_overlayfs,
    OverlayMounting, OverlayUnmounting, Searching,
};
use magic_mount::protocol::{Entry, Error, FileKind, Machine, Reply, Request, Task, Turn};
use magic_mount::rules::Rules;

fn b(s: &str) -> Vec<u8> {
    s.as_bytes().to_vec()
}

/// Plays the host: each request has to be the one that is expected, and gets the reply that goes
/// with it.
fn converse<M: Machine>(
    turn: Turn<M>,
    resume: impl Fn(M, Reply) -> Turn<M>,
    script: Vec<(Request<Vec<u8>>, Reply)>,
) -> Result<M::Value, Error<Vec<u8>>> {
    let mut turn = turn;
    for (expected, reply) in script {
        match turn {
            Turn::Ask(request, machine) => {
                assert_eq!(request, expected);
                turn = resume(machine, reply);
            }
            Turn::Done(_) => panic!("ended before {:?}", expected),
            Turn::Fail(e) => panic!("failed with {:?} before {:?}", e, expected),
        }
    }
    match turn {
        Turn::Ask(request, _) => panic!("asked for {:?}", request),
        Turn::Done(value) => Ok(value),
        Turn::Fail(e) => Err(e),
    }
}

fn yes() -> Reply {
    Reply::Flag(true)
}

fn no() -> Reply {
    Reply::Flag(false)
}

fn is_there(path: &str) -> Request<Vec<u8>> {
    Request::Exists(b(path))
}

fn list(path: &str) -> Request<Vec<u8>> {
    Request::ListDir(b(path))
}

fn entry(name: &str, kind: FileKind) -> Option<Entry<Vec<u8>>> {
    Some(Entry { name: b(name), kind: Ok(kind) })
}

fn is_dir(path: &str) -> Request<Vec<u8>> {
    Request::IsDir(b(path))
}

fn ensure(path: &str) -> Request<Vec<u8>> {
    Request::EnsureDir(b(path))
}

fn rules() -> Rules {
    Rules {
        module_dir: b("/modules"),
        disable_file: b("disable"),
        remove_file: b("remove"),
        skip_mount_file: b("skip_mount"),
        supported_partitions: vec![b("system"), b("vendor"), b("odm")],
    }
}

/// The module takes part.
fn taking_part(module: &str) -> Vec<(Request<Vec<u8>>, Reply)> {
    vec![
        (is_there(&format!("{module}/module.prop")), yes()),
        (is_there(&format!("{module}/disable")), no()),
        (is_there(&format!("{module}/remove")), no()),
        (is_there(&format!("{module}/skip_mount")), no()),
    ]
}

/// Two modules have a directory for the system partition, and the second one for another.
fn two_modules() -> Vec<(Request<Vec<u8>>, Reply)> {
    let mut script = vec![(
        list("/modules"),
        Reply::Listing(vec![entry("one", FileKind::Dir), entry("two", FileKind::Dir)]),
    )];
    script.extend(taking_part("/modules/one"));
    script.extend(vec![
        (
            list("/modules/one"),
            Reply::Listing(vec![entry("system", FileKind::Dir), entry("notes", FileKind::File)]),
        ),
        (is_dir("/system"), yes()),
        (is_dir("/modules/one/system"), yes()),
    ]);
    script.extend(taking_part("/modules/two"));
    script.extend(vec![
        (
            list("/modules/two"),
            Reply::Listing(vec![
                entry("odm", FileKind::Dir),
                entry("vendor", FileKind::Dir),
                entry("system", FileKind::Dir),
            ]),
        ),
        (is_dir("/odm"), yes()),
        (is_dir("/modules/two/odm"), yes()),
        (is_dir("/vendor"), yes()),
        (is_dir("/modules/two/vendor"), no()),
        (is_dir("/system"), yes()),
        (is_dir("/modules/two/system"), yes()),
    ]);
    script
}

fn known() -> Vec<(Request<Vec<u8>>, Reply)> {
    vec![
        (is_there("/proc/filesystems"), yes()),
        (
            Request::ReadText(b("/proc/filesystems")),
            Reply::Data(b("nodev\tsysfs\nnodev\toverlay\n")),
        ),
    ]
}

fn search(
    script: Vec<(Request<Vec<u8>>, Reply)>,
) -> Result<Option<Vec<Partition>>, Error<Vec<u8>>> {
    converse(collect_overlayfs_partitions(rules()), Searching::resume, script).map(|found| found.0)
}

fn mount(script: Vec<(Request<Vec<u8>>, Reply)>) -> Result<(), Error<Vec<u8>>> {
    converse(do_overlayfs_mount(rules(), b("/work")), OverlayMounting::resume, script)
}

fn unmount(script: Vec<(Request<Vec<u8>>, Reply)>) -> Result<(), Error<Vec<u8>>> {
    converse(unmount_overlayfs(b("/work")), OverlayUnmounting::resume, script)
}

#[test]
fn directories_are_listed_by_partition() {
    let found = search(two_modules()).unwrap().unwrap();
    assert_eq!(
        found,
        vec![
            Partition {
                name: b("system"),
                sources: vec![
                    (b("one"), b("/modules/one/system")),
                    (b("two"), b("/modules/two/system")),
                ],
            },
            Partition { name: b("odm"), sources: vec![(b("two"), b("/modules/two/odm"))] },
        ]
    );
}

#[test]
fn without_directories_there_are_no_partitions() {
    let mut script =
        vec![(list("/modules"), Reply::Listing(vec![entry("one", FileKind::Dir)]))];
    script.extend(taking_part("/modules/one"));
    script.push((list("/modules/one"), Reply::Listing(vec![entry("data", FileKind::Dir)])));
    assert_eq!(search(script), Ok(None));
}

#[test]
fn modules_left_out_have_no_partitions() {
    let found = search(vec![
        (list("/modules"), Reply::Listing(vec![entry("one", FileKind::Dir)])),
        (is_there("/modules/one/module.prop"), yes()),
        (is_there("/modules/one/disable"), yes()),
    ]);
    assert_eq!(found, Ok(None));
}

#[test]
fn the_search_fails_on_a_module_whose_name_is_not_text() {
    let found = search(vec![(
        list("/modules"),
        Reply::Listing(vec![Some(Entry { name: vec![0x80], kind: Ok(FileKind::Dir) })]),
    )]);
    assert_eq!(found, Err(Error::ModuleName(vec![0x80])));
}

#[test]
fn the_search_fails_on_a_module_of_unknown_kind() {
    let found = search(vec![(
        list("/modules"),
        Reply::Listing(vec![Some(Entry { name: b("one"), kind: Err(9) })]),
    )]);
    assert_eq!(found, Err(Error::Failed(9)));
}

#[test]
fn later_modules_come_first_and_the_device_last() {
    let partition = Partition {
        name: b("system"),
        sources: vec![
            (b("one"), b("/modules/one/system")),
            (b("two"), b("/modules/two/system")),
            (b("three"), b("/modules/three/system")),
        ],
    };
    let options = mount_options(b"/work", &partition);
    assert_eq!(
        String::from_utf8(options).unwrap(),
        "lowerdir=/modules/three/system:/modules/two/system:/modules/one/system:/system,\
         upperdir=/work/system/upper,workdir=/work/system/work"
    );
}

#[test]
fn options_are_text() {
    let partition = Partition { name: b("odm"), sources: vec![(b("one"), vec![b'/', 0xff])] };
    let options = mount_options(&[b'/', 0xfe], &partition);
    assert_eq!(
        String::from_utf8(options).unwrap(),
        "lowerdir=/\u{fffd}:/odm,upperdir=/\u{fffd}/odm/upper,workdir=/\u{fffd}/odm/work"
    );
}

#[test]
fn overlays_are_mounted_and_marked() {
    let mut script = known();
    script.extend(two_modules());
    script.extend(vec![
        (ensure("/work"), Reply::Done),
        (is_there("/system"), yes()),
        (is_there("/system/.overlayfs_mounted"), no()),
        (ensure("/work/system/upper"), Reply::Done),
        (ensure("/work/system/work"), Reply::Done),
        (
            Request::MountOverlay {
                target: b("/system"),
                options: b(
                    "lowerdir=/modules/two/system:/modules/one/system:/system,\
                     upperdir=/work/system/upper,workdir=/work/system/work",
                ),
            },
            Reply::Done,
        ),
        (Request::CreateFile(b("/system/.overlayfs_mounted")), Reply::Failed(30)),
        (is_there("/odm"), no()),
    ]);
    assert_eq!(mount(script), Ok(()));
}

#[test]
fn marked_partitions_are_not_mounted_again() {
    let mut script = known();
    script.extend(two_modules());
    script.extend(vec![
        (ensure("/work"), Reply::Done),
        (is_there("/system"), yes()),
        (is_there("/system/.overlayfs_mounted"), yes()),
        (is_there("/odm"), yes()),
        (is_there("/odm/.overlayfs_mounted"), yes()),
    ]);
    assert_eq!(mount(script), Ok(()));
}

#[test]
fn the_error_tells_which_overlay_could_not_be_mounted() {
    let mut script = known();
    script.extend(two_modules());
    script.extend(vec![
        (ensure("/work"), Reply::Done),
        (is_there("/system"), yes()),
        (is_there("/system/.overlayfs_mounted"), no()),
        (ensure("/work/system/upper"), Reply::Done),
        (ensure("/work/system/work"), Reply::Done),
        (
            Request::MountOverlay {
                target: b("/system"),
                options: b(
                    "lowerdir=/modules/two/system:/modules/one/system:/system,\
                     upperdir=/work/system/upper,workdir=/work/system/work",
                ),
            },
            Reply::Failed(22),
        ),
    ]);
    let task = Task::MountOverlay { partition: b("system") };
    assert_eq!(mount(script), Err(Error::Within(task, Box::new(Error::Failed(22)))));
}

#[test]
fn an_overlay_that_cannot_be_prepared_fails() {
    let mut script = known();
    script.extend(two_modules());
    script.extend(vec![
        (ensure("/work"), Reply::Done),
        (is_there("/system"), yes()),
        (is_there("/system/.overlayfs_mounted"), no()),
        (ensure("/work/system/upper"), Reply::Done),
        (ensure("/work/system/work"), Reply::Failed(28)),
    ]);
    assert_eq!(mount(script), Err(Error::Failed(28)));
}

#[test]
fn without_modules_no_overlay_is_mounted() {
    let mut script = known();
    script.push((list("/modules"), Reply::Listing(vec![])));
    assert_eq!(mount(script), Ok(()));
}

#[test]
fn the_kernel_has_to_know_overlays() {
    let missing = mount(vec![(is_there("/proc/filesystems"), no())]);
    assert_eq!(missing, Err(Error::NoOverlay));
    for text in [Reply::Data(b("nodev\tsysfs\n")), Reply::Failed(5)] {
        let unknown = mount(vec![
            (is_there("/proc/filesystems"), yes()),
            (Request::ReadText(b("/proc/filesystems")), text),
        ]);
        assert_eq!(unknown, Err(Error::NoOverlay));
    }
}

#[test]
fn options_with_a_zero_byte_cannot_be_handed_on() {
    let mut rules = rules();
    rules.supported_partitions = vec![b("odm\0")];
    let mut script = known();
    script.push((list("/modules"), Reply::Listing(vec![entry("one", FileKind::Dir)])));
    script.extend(taking_part("/modules/one"));
    script.extend(vec![
        (list("/modules/one"), Reply::Listing(vec![entry("odm\0", FileKind::Dir)])),
        (is_dir("/odm\0"), yes()),
        (is_dir("/modules/one/odm\0"), yes()),
        (ensure("/work"), Reply::Done),
        (is_there("/odm\0"), yes()),
        (is_there("/odm\0/.overlayfs_mounted"), no()),
        (ensure("/work/odm\0/upper"), Reply::Done),
        (ensure("/work/odm\0/work"), Reply::Done),
    ]);
    let turn = do_overlayfs_mount(rules, b("/work"));
    assert_eq!(converse(turn, OverlayMounting::resume, script), Err(Error::OptionsWithNul));
}

#[test]
fn without_a_work_directory_there_is_nothing_to_unmount() {
    assert_eq!(unmount(vec![(is_there("/work"), no())]), Ok(()));
}

#[test]
fn marked_partitions_are_unmounted() {
    let result = unmount(vec![
        (is_there("/work"), yes()),
        (
            list("/work"),
            Reply::Listing(vec![
                entry("system", FileKind::Dir),
                entry("notes", FileKind::File),
                Some(Entry { name: vec![0xff], kind: Ok(FileKind::Dir) }),
                Some(Entry { name: b("odm"), kind: Err(5) }),
                None,
                entry("vendor", FileKind::Dir),
                entry("odm", FileKind::Dir),
            ]),
        ),
        (is_there("/system/.overlayfs_mounted"), yes()),
        (Request::Unmount(b("/system")), Reply::Done),
        (Request::RemoveFile(b("/system/.overlayfs_mounted")), Reply::Failed(2)),
        (is_there("/vendor/.overlayfs_mounted"), yes()),
        (Request::Unmount(b("/vendor")), Reply::Failed(16)),
        (is_there("/odm/.overlayfs_mounted"), no()),
        (Request::RemoveTree(b("/work")), Reply::Failed(39)),
    ]);
    assert_eq!(result, Ok(()));
}

#[test]
fn a_work_directory_that_cannot_be_listed_fails() {
    let result = unmount(vec![(is_there("/work"), yes()), (list("/work"), Reply::Failed(13))]);
    assert_eq!(result, Err(Error::Failed(13)));
}
