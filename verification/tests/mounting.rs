use magic_mount::mounting::{
    do_magic_mount, handle_mount_result, process_existing_entries, process_remaining_children,
    should_create_tmpfs, Filling, Mounting, Walking, Weighing,
};
use magic_mount::node::{Node, NodeFileType};
use magic_mount::protocol::{
    Entry, Error, FileKind, Machine, Metadata, Reply, Request, Task, Turn,
};

fn b(s: &str) -> Vec<u8> {
    s.as_bytes().to_vec()
}

/// Plays the host: each request has to be the one that is expected, and gets the reply that goes
/// with it.
fn converse<M: Machine>(
    turn: Turn<M>,
    resume: impl Fn(M, Reply) -> Turn<M>,
    script: Vec<(Request<Vec<u8>>, Reply)>,
) -> Result<M::Value, Error<Vec<u8>>> {
    let mut turn = turn;
    for (expected, reply) in script {
        match turn {
            Turn::Ask(request, machine) => {
                assert_eq!(request, expected);
                turn = resume(machine, reply);
            }
            Turn::Done(_) => panic!("ended before {:?}", expected),
            Turn::Fail(e) => panic!("failed with {:?} before {:?}", e, expected),
        }
    }
    match turn {
        Turn::Ask(request, _) => panic!("asked for {:?}", request),
        Turn::Done(value) => Ok(value),
        Turn::Fail(e) => Err(e),
    }
}

fn yes() -> Reply {
    Reply::Flag(true)
}

fn no() -> Reply {
    Reply::Flag(false)
}

fn is_there(path: &str) -> Request<Vec<u8>> {
    Request::Exists(b(path))
}

fn list(path: &str) -> Request<Vec<u8>> {
    Request::ListDir(b(path))
}

fn entry(name: &str, kind: FileKind) -> Option<Entry<Vec<u8>>> {
    Some(Entry { name: b(name), kind: Ok(kind) })
}

fn stat(kind: FileKind) -> Reply {
    Reply::Stat(Metadata { kind, rdev: 0, mode: 0o40755, uid: 0, gid: 2000 })
}

fn lstat(path: &str) -> Request<Vec<u8>> {
    Request::Lstat(b(path))
}

fn bind(source: &str, target: &str) -> Request<Vec<u8>> {
    Request::BindMount { source: b(source), target: b(target) }
}

fn create(path: &str) -> Request<Vec<u8>> {
    Request::CreateFile(b(path))
}

fn node(name: &str, file_type: NodeFileType) -> Node {
    Node::of_module(b(name), file_type, b(&format!("/m/{name}")), false)
}

fn file(name: &str) -> Node {
    node(name, NodeFileType::RegularFile)
}

fn module_dir(name: &str, children: Vec<Node>) -> Node {
    let mut dir = node(name, NodeFileType::Directory);
    dir.children = children;
    dir
}

fn device_dir(name: &str, children: Vec<Node>) -> Node {
    let mut dir = Node::new_root(name.as_bytes());
    dir.children = children;
    dir
}

/// Giving a directory on the memory file system the likeness of another.
fn likeness(source: &str, target: &str) -> Vec<(Request<Vec<u8>>, Reply)> {
    vec![
        (Request::Stat(b(source)), stat(FileKind::Dir)),
        (Request::SetMode { path: b(target), mode: 0o755 }, Reply::Done),
        (Request::SetOwner { path: b(target), uid: 0, gid: 2000 }, Reply::Done),
        (Request::GetLabel(b(source)), Reply::Data(b("label"))),
        (Request::SetLabel { path: b(target), label: b("label") }, Reply::Done),
    ]
}

fn within(task: Task<Vec<u8>>, error: Error<Vec<u8>>) -> Error<Vec<u8>> {
    Error::Within(task, Box::new(error))
}

fn mount(
    mounted: Node,
    has_tmpfs: bool,
    script: Vec<(Request<Vec<u8>>, Reply)>,
) -> Result<(), Error<Vec<u8>>> {
    let turn = do_magic_mount(b"/system", b"/tmp/system", mounted, has_tmpfs);
    converse(turn, Mounting::resume, script)
}

fn decide(
    decided: Node,
    has_tmpfs: bool,
    script: Vec<(Request<Vec<u8>>, Reply)>,
) -> Result<(bool, Node), Error<Vec<u8>>> {
    converse(should_create_tmpfs(b"/system/etc", decided, has_tmpfs), Weighing::resume, script)
}

#[test]
fn files_are_bound_over_those_of_the_device() {
    let result = mount(file("f"), false, vec![(bind("/m/f", "/system/f"), Reply::Done)]);
    assert_eq!(result, Ok(()));
}

#[test]
fn files_in_a_new_directory_are_bound_over_new_files() {
    let result = mount(
        file("f"),
        true,
        vec![
            (create("/tmp/system/f"), Reply::Done),
            (bind("/m/f", "/tmp/system/f"), Reply::Done),
        ],
    );
    assert_eq!(result, Ok(()));
}

#[test]
fn files_that_no_module_provides_cannot_be_mounted() {
    let mut orphan = file("f");
    orphan.origin = None;
    assert_eq!(mount(orphan, false, vec![]), Err(Error::RootFile(b("/system/f"))));
    let mut orphan = file("f");
    orphan.origin = None;
    let result = mount(orphan, true, vec![(create("/tmp/system/f"), Reply::Done)]);
    assert_eq!(result, Err(Error::RootFile(b("/system/f"))));
}

#[test]
fn links_are_made_again_in_a_new_directory() {
    let result = mount(
        node("l", NodeFileType::Symlink),
        true,
        vec![
            (Request::ReadLink(b("/m/l")), Reply::Data(b("f"))),
            (Request::MakeSymlink { target: b("f"), link: b("/tmp/system/l") }, Reply::Done),
            (Request::GetLabel(b("/m/l")), Reply::Data(b("label"))),
            (Request::SetLabel { path: b("/tmp/system/l"), label: b("label") }, Reply::Done),
        ],
    );
    assert_eq!(result, Ok(()));
}

#[test]
fn links_that_no_module_provides_cannot_be_mounted() {
    let mut orphan = node("l", NodeFileType::Symlink);
    orphan.origin = None;
    assert_eq!(mount(orphan, true, vec![]), Err(Error::RootSymlink(b("/system/l"))));
}

#[test]
fn whiteouts_are_not_mounted() {
    assert_eq!(mount(node("w", NodeFileType::Whiteout), false, vec![]), Ok(()));
    assert_eq!(mount(node("w", NodeFileType::Whiteout), true, vec![]), Ok(()));
}

#[test]
fn inside_a_new_directory_nothing_is_decided() {
    let dir = || module_dir("etc", vec![node("l", NodeFileType::Symlink)]);
    assert_eq!(decide(dir(), true, vec![]), Ok((false, dir())));
}

#[test]
fn replacing_directories_are_built_anew() {
    let dir = || {
        let mut d = module_dir("etc", vec![]);
        d.replace = true;
        d
    };
    assert_eq!(decide(dir(), false, vec![]), Ok((true, dir())));
}

#[test]
fn directories_with_new_files_are_built_anew() {
    let dir = || module_dir("etc", vec![file("old"), file("new"), file("other")]);
    let decision = decide(
        dir(),
        false,
        vec![
            (lstat("/system/etc/old"), stat(FileKind::File)),
            (lstat("/system/etc/new"), Reply::Failed(2)),
        ],
    );
    assert_eq!(decision, Ok((true, dir())));
}

#[test]
fn directories_with_known_files_stay() {
    let dir = || {
        let whiteout = node("w", NodeFileType::Whiteout);
        module_dir("etc", vec![file("f"), module_dir("d", vec![]), whiteout])
    };
    let decision = decide(
        dir(),
        false,
        vec![
            (lstat("/system/etc/f"), stat(FileKind::File)),
            (lstat("/system/etc/d"), stat(FileKind::Dir)),
            (is_there("/system/etc/w"), no()),
        ],
    );
    assert_eq!(decision, Ok((false, dir())));
}

#[test]
fn directories_of_the_device_leave_out_what_does_not_fit() {
    let (create, decided) = decide(
        device_dir("etc", vec![node("l", NodeFileType::Symlink), file("f"), file("n")]),
        false,
        vec![
            (lstat("/system/etc/f"), stat(FileKind::File)),
            (lstat("/system/etc/n"), stat(FileKind::Symlink)),
        ],
    )
    .unwrap();
    assert!(!create);
    let skips: Vec<bool> = decided.children.iter().map(|c| c.skip).collect();
    assert_eq!(skips, vec![true, false, true]);
}

#[test]
fn directories_are_walked_through() {
    let result = mount(
        module_dir("etc", vec![file("f"), file("g")]),
        false,
        vec![
            (lstat("/system/etc/f"), stat(FileKind::File)),
            (lstat("/system/etc/g"), stat(FileKind::File)),
            (is_there("/system/etc"), yes()),
            (
                list("/system/etc"),
                Reply::Listing(vec![
                    entry("other", FileKind::File),
                    None,
                    entry("g", FileKind::File),
                ]),
            ),
            (bind("/m/g", "/system/etc/g"), Reply::Done),
            (bind("/m/f", "/system/etc/f"), Reply::Done),
        ],
    );
    assert_eq!(result, Ok(()));
}

#[test]
fn new_directories_are_filled_and_moved_over_the_old_ones() {
    let mut script = vec![
        (lstat("/system/etc/new"), Reply::Failed(2)),
        (Request::CreateDirAll(b("/tmp/system/etc")), Reply::Done),
        (is_there("/system/etc"), yes()),
    ];
    script.extend(likeness("/system/etc", "/tmp/system/etc"));
    script.extend(vec![
        (bind("/tmp/system/etc", "/tmp/system/etc"), Reply::Done),
        (is_there("/system/etc"), yes()),
        (
            list("/system/etc"),
            Reply::Listing(vec![entry("hosts", FileKind::File), entry("w", FileKind::File)]),
        ),
        (create("/tmp/system/etc/hosts"), Reply::Done),
        (bind("/system/etc/hosts", "/tmp/system/etc/hosts"), Reply::Done),
        (create("/tmp/system/etc/new"), Reply::Done),
        (bind("/m/new", "/tmp/system/etc/new"), Reply::Done),
        (
            Request::MoveMount { source: b("/tmp/system/etc"), target: b("/system/etc") },
            Reply::Done,
        ),
        (Request::MakePrivate(b("/system/etc")), Reply::Done),
    ]);
    let dir = module_dir("etc", vec![file("new"), node("w", NodeFileType::Whiteout)]);
    assert_eq!(mount(dir, false, script), Ok(()));
}

#[test]
fn replaced_directories_hold_only_what_modules_provide() {
    let mut script = vec![
        (Request::CreateDirAll(b("/tmp/system/etc")), Reply::Done),
        (is_there("/system/etc"), yes()),
    ];
    script.extend(likeness("/system/etc", "/tmp/system/etc"));
    script.extend(vec![
        (bind("/tmp/system/etc", "/tmp/system/etc"), Reply::Done),
        (is_there("/system/etc"), yes()),
        (create("/tmp/system/etc/f"), Reply::Done),
        (bind("/m/f", "/tmp/system/etc/f"), Reply::Done),
        (
            Request::MoveMount { source: b("/tmp/system/etc"), target: b("/system/etc") },
            Reply::Done,
        ),
        (Request::MakePrivate(b("/system/etc")), Reply::Done),
    ]);
    let mut dir = module_dir("etc", vec![file("f")]);
    dir.replace = true;
    assert_eq!(mount(dir, false, script), Ok(()));
}

#[test]
fn directories_of_the_device_cannot_be_replaced() {
    let mut dir = device_dir("etc", vec![]);
    dir.replace = true;
    let result = mount(dir, false, vec![(is_there("/system/etc"), yes())]);
    assert_eq!(result, Err(Error::ReplacedRoot(b("/system/etc"))));
}

#[test]
fn a_directory_that_cannot_be_completed_is_not_moved() {
    let mut script = vec![
        (lstat("/system/etc/new"), Reply::Failed(2)),
        (Request::CreateDirAll(b("/tmp/system/etc")), Reply::Done),
        (is_there("/system/etc"), yes()),
    ];
    script.extend(likeness("/system/etc", "/tmp/system/etc"));
    script.extend(vec![
        (bind("/tmp/system/etc", "/tmp/system/etc"), Reply::Done),
        (is_there("/system/etc"), yes()),
        (list("/system/etc"), Reply::Listing(vec![])),
        (create("/tmp/system/etc/new"), Reply::Failed(28)),
    ]);
    let dir = module_dir("etc", vec![file("new"), file("never")]);
    let task = Task::MagicMount { path: b("/system/etc"), name: b("new") };
    assert_eq!(mount(dir, false, script), Err(within(task, Error::Failed(28))));
}

#[test]
fn elsewhere_a_child_that_fails_is_passed_over() {
    let result = mount(
        module_dir("etc", vec![file("f"), file("g")]),
        false,
        vec![
            (lstat("/system/etc/f"), stat(FileKind::File)),
            (lstat("/system/etc/g"), stat(FileKind::File)),
            (is_there("/system/etc"), yes()),
            (
                list("/system/etc"),
                Reply::Listing(vec![entry("f", FileKind::File), entry("g", FileKind::File)]),
            ),
            (bind("/m/f", "/system/etc/f"), Reply::Failed(22)),
            (bind("/m/g", "/system/etc/g"), Reply::Done),
        ],
    );
    assert_eq!(result, Ok(()));
}

#[test]
fn a_directory_that_cannot_be_listed_cannot_be_mounted() {
    let result = mount(
        device_dir("etc", vec![]),
        false,
        vec![
            (is_there("/system/etc"), yes()),
            (list("/system/etc"), Reply::Failed(13)),
        ],
    );
    assert_eq!(result, Err(Error::Failed(13)));
}

#[test]
fn children_marked_to_be_left_out_are_left_out() {
    let result = mount(
        device_dir("etc", vec![node("l", NodeFileType::Symlink), file("f")]),
        false,
        vec![
            (lstat("/system/etc/f"), Reply::Failed(2)),
            (is_there("/system/etc"), yes()),
            (list("/system/etc"), Reply::Listing(vec![entry("l", FileKind::Symlink)])),
        ],
    );
    assert_eq!(result, Ok(()));
}

#[test]
fn directories_nest_inside_a_new_directory() {
    let mut script = vec![
        (Request::CreateDirAll(b("/tmp/system/d")), Reply::Done),
        (is_there("/system/d"), no()),
    ];
    script.extend(likeness("/m/d", "/tmp/system/d"));
    script.extend(vec![
        (is_there("/system/d"), no()),
        (create("/tmp/system/d/f"), Reply::Done),
        (bind("/m/f", "/tmp/system/d/f"), Reply::Done),
    ]);
    assert_eq!(mount(module_dir("d", vec![file("f")]), true, script), Ok(()));
}

#[test]
fn a_directory_of_the_device_inside_a_new_one_needs_a_likeness() {
    let result = mount(
        device_dir("d", vec![]),
        true,
        vec![
            (Request::CreateDirAll(b("/tmp/system/d")), Reply::Done),
            (is_there("/system/d"), no()),
        ],
    );
    assert_eq!(result, Err(Error::RootDir(b("/system/d"))));
}

#[test]
fn walking_hands_back_what_has_no_counterpart() {
    let left = converse(
        process_existing_entries(
            b("/system"),
            b("/tmp/system"),
            vec![file("f"), file("g"), file("h")],
            false,
        ),
        Walking::resume,
        vec![
            (list("/system"), Reply::Listing(vec![entry("g", FileKind::File)])),
            (bind("/m/g", "/system/g"), Reply::Done),
        ],
    );
    assert_eq!(left.unwrap().0, vec![file("f"), file("h")]);
}

#[test]
fn walking_mirrors_entries_of_any_name_in_a_new_directory() {
    let raw = vec![0xfe, b'x'];
    let joined = |base: &str| {
        let mut path = b(base);
        path.extend(&raw);
        path
    };
    let left = converse(
        process_existing_entries(b("/system"), b("/tmp/system"), vec![], true),
        Walking::resume,
        vec![
            (
                list("/system"),
                Reply::Listing(vec![Some(Entry { name: raw.clone(), kind: Ok(FileKind::File) })]),
            ),
            (Request::CreateFile(joined("/tmp/system/")), Reply::Done),
            (
                Request::BindMount { source: joined("/system/"), target: joined("/tmp/system/") },
                Reply::Done,
            ),
        ],
    );
    assert_eq!(left.unwrap().0, vec![]);
}

#[test]
fn filling_goes_through_the_children_in_order() {
    let mut skipped = file("s");
    skipped.skip = true;
    let result = converse(
        process_remaining_children(
            b("/system"),
            b("/tmp/system"),
            vec![file("f"), skipped, file("g")],
            true,
        ),
        Filling::resume,
        vec![
            (create("/tmp/system/f"), Reply::Done),
            (bind("/m/f", "/tmp/system/f"), Reply::Done),
            (create("/tmp/system/g"), Reply::Failed(30)),
        ],
    );
    let task = Task::MagicMount { path: b("/system"), name: b("g") };
    assert_eq!(result, Err(within(task, Error::Failed(30))));
}

#[test]
fn errors_count_only_inside_a_new_directory() {
    assert_eq!(handle_mount_result(Err(Error::Failed(1)), true), Err(Error::Failed(1)));
    assert_eq!(handle_mount_result(Err(Error::Failed(1)), false), Ok(()));
    assert_eq!(handle_mount_result(Ok(()), true), Ok(()));
}

/// A directory with a new file, up to where it is made a mount of its own.
fn built_anew() -> Vec<(Request<Vec<u8>>, Reply)> {
    let mut script = vec![
        (lstat("/system/etc/new"), Reply::Failed(2)),
        (Request::CreateDirAll(b("/tmp/system/etc")), Reply::Done),
        (is_there("/system/etc"), yes()),
    ];
    script.extend(likeness("/system/etc", "/tmp/system/etc"));
    script
}

/// The same directory, up to where it is moved over the old one.
fn filled() -> Vec<(Request<Vec<u8>>, Reply)> {
    let mut script = built_anew();
    script.extend(vec![
        (bind("/tmp/system/etc", "/tmp/system/etc"), Reply::Done),
        (is_there("/system/etc"), yes()),
        (list("/system/etc"), Reply::Listing(vec![])),
        (create("/tmp/system/etc/new"), Reply::Done),
        (bind("/m/new", "/tmp/system/etc/new"), Reply::Done),
    ]);
    script
}

#[test]
fn the_error_tells_that_a_new_directory_could_not_be_bound() {
    let mut script = built_anew();
    script.push((bind("/tmp/system/etc", "/tmp/system/etc"), Reply::Failed(22)));
    let dir = module_dir("etc", vec![file("new")]);
    assert_eq!(mount(dir, false, script), Err(within(Task::BindSelf, Error::Failed(22))));
}

#[test]
fn the_error_tells_that_a_new_directory_could_not_be_moved() {
    let request = Request::MoveMount { source: b("/tmp/system/etc"), target: b("/system/etc") };
    let mut script = filled();
    script.push((request, Reply::Failed(22)));
    let dir = module_dir("etc", vec![file("new")]);
    assert_eq!(mount(dir, false, script), Err(within(Task::MoveSelf, Error::Failed(22))));
}

#[test]
fn the_error_tells_that_a_new_directory_could_not_be_made_private() {
    let request = Request::MoveMount { source: b("/tmp/system/etc"), target: b("/system/etc") };
    let mut script = filled();
    script.push((request, Reply::Done));
    script.push((Request::MakePrivate(b("/system/etc")), Reply::Failed(22)));
    let dir = module_dir("etc", vec![file("new")]);
    assert_eq!(mount(dir, false, script), Err(within(Task::MakeSelfPrivate, Error::Failed(22))));
}

#[test]
fn the_error_tells_which_entry_could_not_be_mirrored() {
    let result = converse(
        process_existing_entries(b("/system"), b("/tmp/system"), vec![], true),
        Walking::resume,
        vec![
            (list("/system"), Reply::Listing(vec![entry("f", FileKind::File)])),
            (create("/tmp/system/f"), Reply::Done),
            (bind("/system/f", "/tmp/system/f"), Reply::Failed(22)),
        ],
    );
    let task = Task::MountMirror { path: b("/system"), name: b("f") };
    assert_eq!(result.map(|left| left.0), Err(within(task, Error::Failed(22))));
}

#[test]
fn the_error_tells_the_way_to_a_child_that_could_not_be_mounted() {
    let mut script = vec![
        (Request::CreateDirAll(b("/tmp/system/a")), Reply::Done),
        (is_there("/system/a"), no()),
    ];
    script.extend(likeness("/m/a", "/tmp/system/a"));
    script.extend(vec![
        (is_there("/system/a"), no()),
        (create("/tmp/system/a/f"), Reply::Failed(28)),
    ]);
    let result = converse(
        process_remaining_children(
            b("/system"),
            b("/tmp/system"),
            vec![module_dir("a", vec![file("f")])],
            true,
        ),
        Filling::resume,
        script,
    );
    let inner = Task::MagicMount { path: b("/system/a"), name: b("f") };
    let outer = Task::MagicMount { path: b("/system"), name: b("a") };
    assert_eq!(result, Err(within(outer, within(inner, Error::Failed(28)))));
}
