use magic_mount::collect::{Collecting, NewModule, ReplaceCheck};
use magic_mount::node::{MaybeNode, Node, NodeFileType};
use magic_mount::protocol::{
    Entry, Error, FileKind, Machine, Metadata, Reply, Request, Turn,
};

fn b(s: &str) -> Vec<u8> {
    s.as_bytes().to_vec()
}

/// Plays the host: each request has to be the one that is expected, and gets the reply that goes
/// with it.
fn converse<M: Machine>(
    turn: Turn<M>,
    resume: impl Fn(M, Reply) -> Turn<M>,
    script: Vec<(Request<Vec<u8>>, Reply)>,
) -> Result<M::Value, Error<Vec<u8>>> {
    let mut turn = turn;
    for (expected, reply) in script {
        match turn {
            Turn::Ask(request, machine) => {
                assert_eq!(request, expected);
                turn = resume(machine, reply);
            }
            Turn::Done(_) => panic!("ended before {:?}", expected),
            Turn::Fail(e) => panic!("failed with {:?} before {:?}", e, expected),
        }
    }
    match turn {
        Turn::Ask(request, _) => panic!("asked for {:?}", request),
        Turn::Done(value) => Ok(value),
        Turn::Fail(e) => Err(e),
    }
}

fn yes() -> Reply {
    Reply::Flag(true)
}

fn no() -> Reply {
    Reply::Flag(false)
}

fn is_there(path: &str) -> Request<Vec<u8>> {
    Request::Exists(b(path))
}

fn list(path: &str) -> Request<Vec<u8>> {
    Request::ListDir(b(path))
}

fn entry(name: &str, kind: FileKind) -> Option<Entry<Vec<u8>>> {
    Some(Entry { name: b(name), kind: Ok(kind) })
}

fn stat(kind: FileKind, rdev: u64) -> Reply {
    Reply::Stat(Metadata { kind, rdev, mode: 0o755, uid: 0, gid: 0 })
}

fn lstat(path: &str) -> Request<Vec<u8>> {
    Request::Lstat(b(path))
}

fn xattr(path: &str) -> Request<Vec<u8>> {
    Request::GetXattr { path: b(path), name: b("trusted.overlay.opaque") }
}

fn node(name: &str, file_type: NodeFileType, origin: &str) -> Node {
    Node::of_module(b(name), file_type, b(origin), false)
}

fn replaces(script: Vec<(Request<Vec<u8>>, Reply)>) -> Result<bool, Error<Vec<u8>>> {
    converse(Node::dir_is_replace(b"/m/dir"), ReplaceCheck::resume, script)
}

fn make(script: Vec<(Request<Vec<u8>>, Reply)>) -> Result<MaybeNode, Error<Vec<u8>>> {
    converse(Node::new_module(b("file"), b("/m/file")), NewModule::resume, script)
}

fn collect(
    start: Node,
    dir: &str,
    script: Vec<(Request<Vec<u8>>, Reply)>,
) -> Result<(Node, bool), Error<Vec<u8>>> {
    converse(start.collect_module_files(&b(dir)), Collecting::resume, script)
}

#[test]
fn the_attribute_marks_a_replacing_directory() {
    assert_eq!(replaces(vec![(xattr("/m/dir"), Reply::Data(b("y")))]), Ok(true));
}

#[test]
fn other_attributes_do_not_mark() {
    for value in [b("n"), b("yes"), b(""), vec![0xff]] {
        let found = replaces(vec![
            (xattr("/m/dir"), Reply::Data(value)),
            (is_there("/m/dir/.replace"), no()),
        ]);
        assert_eq!(found, Ok(false));
    }
}

#[test]
fn the_marker_file_marks_a_replacing_directory() {
    let found = replaces(vec![
        (xattr("/m/dir"), Reply::Failed(61)),
        (is_there("/m/dir/.replace"), yes()),
    ]);
    assert_eq!(found, Ok(true));
}

#[test]
fn files_become_nodes() {
    let made = make(vec![(lstat("/m/file"), stat(FileKind::File, 0))]);
    let expected = node("file", NodeFileType::RegularFile, "/m/file");
    assert_eq!(made, Ok(MaybeNode(Some(expected))));
}

#[test]
fn character_devices_become_whiteouts() {
    for number in [0, 259] {
        let made = make(vec![(lstat("/m/file"), stat(FileKind::CharDevice, number))]);
        let expected = node("file", NodeFileType::Whiteout, "/m/file");
        assert_eq!(made, Ok(MaybeNode(Some(expected))));
    }
}

#[test]
fn replacing_directories_become_replacing_nodes() {
    let made = make(vec![
        (lstat("/m/file"), stat(FileKind::Dir, 0)),
        (xattr("/m/file"), Reply::Data(b("y"))),
    ]);
    let expected = Node::of_module(b("file"), NodeFileType::Directory, b("/m/file"), true);
    assert_eq!(made, Ok(MaybeNode(Some(expected))));
}

#[test]
fn files_that_cannot_be_looked_at_are_passed_over() {
    let made = make(vec![(lstat("/m/file"), Reply::Failed(13))]);
    assert_eq!(made, Ok(MaybeNode(None)));
}

#[test]
fn directories_are_collected_with_all_they_hold() {
    let (tree, has_file) = collect(
        Node::new_root(b"system"),
        "/m/system",
        vec![
            (
                list("/m/system"),
                Reply::Listing(vec![
                    entry("app", FileKind::Dir),
                    None,
                    entry("build.prop", FileKind::File),
                ]),
            ),
            (lstat("/m/system/app"), stat(FileKind::Dir, 0)),
            (xattr("/m/system/app"), Reply::Failed(61)),
            (is_there("/m/system/app/.replace"), no()),
            (list("/m/system/app"), Reply::Listing(vec![entry("link", FileKind::Symlink)])),
            (lstat("/m/system/app/link"), stat(FileKind::Symlink, 0)),
            (lstat("/m/system/build.prop"), stat(FileKind::File, 0)),
        ],
    )
    .unwrap();
    let mut app = node("app", NodeFileType::Directory, "/m/system/app");
    app.children = vec![node("link", NodeFileType::Symlink, "/m/system/app/link")];
    let mut expected = Node::new_root(b"system");
    expected.children =
        vec![app, node("build.prop", NodeFileType::RegularFile, "/m/system/build.prop")];
    assert_eq!(tree, expected);
    assert!(has_file);
}

#[test]
fn empty_directories_are_nothing_to_mount() {
    let (tree, has_file) = collect(
        Node::new_root(b"system"),
        "/m/system",
        vec![
            (list("/m/system"), Reply::Listing(vec![entry("app", FileKind::Dir)])),
            (lstat("/m/system/app"), stat(FileKind::Dir, 0)),
            (xattr("/m/system/app"), Reply::Failed(61)),
            (is_there("/m/system/app/.replace"), no()),
            (list("/m/system/app"), Reply::Listing(vec![])),
        ],
    )
    .unwrap();
    assert_eq!(tree.children.len(), 1);
    assert!(!has_file);
}

#[test]
fn an_empty_directory_that_replaces_is_something_to_mount() {
    let (tree, has_file) = collect(
        Node::new_root(b"system"),
        "/m/system",
        vec![
            (list("/m/system"), Reply::Listing(vec![entry("app", FileKind::Dir)])),
            (lstat("/m/system/app"), stat(FileKind::Dir, 0)),
            (xattr("/m/system/app"), Reply::Data(b("y"))),
            (list("/m/system/app"), Reply::Listing(vec![])),
        ],
    )
    .unwrap();
    assert!(tree.children[0].replace);
    assert!(has_file);
}

#[test]
fn the_first_module_with_a_file_keeps_it() {
    let mut app = node("app", NodeFileType::Directory, "/one/system/app");
    app.children = vec![node("a", NodeFileType::RegularFile, "/one/system/app/a")];
    let mut start = Node::new_root(b"system");
    start.children = vec![app, node("f", NodeFileType::RegularFile, "/one/system/f")];
    let (tree, has_file) = collect(
        start,
        "/two/system",
        vec![
            (
                list("/two/system"),
                Reply::Listing(vec![entry("f", FileKind::Symlink), entry("app", FileKind::Dir)]),
            ),
            (
                list("/two/system/app"),
                Reply::Listing(vec![entry("a", FileKind::File), entry("b", FileKind::File)]),
            ),
            (lstat("/two/system/app/b"), stat(FileKind::File, 0)),
        ],
    )
    .unwrap();
    let mut merged = node("app", NodeFileType::Directory, "/one/system/app");
    merged.children = vec![
        node("a", NodeFileType::RegularFile, "/one/system/app/a"),
        node("b", NodeFileType::RegularFile, "/two/system/app/b"),
    ];
    let mut expected = Node::new_root(b"system");
    expected.children = vec![merged, node("f", NodeFileType::RegularFile, "/one/system/f")];
    assert_eq!(tree, expected);
    assert!(has_file);
}

#[test]
fn a_directory_of_one_module_cannot_be_a_file_of_the_next() {
    let mut start = Node::new_root(b"system");
    start.children = vec![node("app", NodeFileType::Directory, "/one/system/app")];
    let result = collect(
        start,
        "/two/system",
        vec![
            (list("/two/system"), Reply::Listing(vec![entry("app", FileKind::File)])),
            (list("/two/system/app"), Reply::Failed(20)),
        ],
    );
    assert_eq!(result, Err(Error::Failed(20)));
}

#[test]
fn names_that_are_not_text_are_read_as_text() {
    let raw = vec![b'a', 0xff, b'b'];
    let mut path = b("/m/system/");
    path.extend(&raw);
    let (tree, has_file) = collect(
        Node::new_root(b"system"),
        "/m/system",
        vec![
            (
                list("/m/system"),
                Reply::Listing(vec![Some(Entry { name: raw, kind: Ok(FileKind::File) })]),
            ),
            (Request::Lstat(path.clone()), stat(FileKind::File, 0)),
        ],
    )
    .unwrap();
    assert_eq!(tree.children[0].name, b("a\u{fffd}b"));
    assert_eq!(tree.children[0].origin, Some(path));
    assert!(has_file);
}

#[test]
fn a_directory_that_cannot_be_listed_fails() {
    let result = collect(
        Node::new_root(b"system"),
        "/m/system",
        vec![(list("/m/system"), Reply::Failed(5))],
    );
    assert_eq!(result, Err(Error::Failed(5)));
}

#[test]
fn a_reply_of_the_wrong_kind_fails() {
    let result =
        collect(Node::new_root(b"system"), "/m/system", vec![(list("/m/system"), Reply::Done)]);
    assert_eq!(result, Err(Error::WrongReply));
}

#[test]
fn collecting_a_second_time_changes_nothing() {
    let listing =
        || Reply::Listing(vec![entry("app", FileKind::Dir), entry("lost", FileKind::File)]);
    let below = || Reply::Listing(vec![entry("f", FileKind::File)]);
    let (once, has_file) = collect(
        Node::new_root(b"system"),
        "/m/system",
        vec![
            (list("/m/system"), listing()),
            (lstat("/m/system/app"), stat(FileKind::Dir, 0)),
            (xattr("/m/system/app"), Reply::Failed(61)),
            (is_there("/m/system/app/.replace"), no()),
            (list("/m/system/app"), below()),
            (lstat("/m/system/app/f"), stat(FileKind::File, 0)),
            (lstat("/m/system/lost"), Reply::Failed(5)),
        ],
    )
    .unwrap();
    assert!(has_file);
    let mut app = node("app", NodeFileType::Directory, "/m/system/app");
    app.children = vec![node("f", NodeFileType::RegularFile, "/m/system/app/f")];
    let mut expected = Node::new_root(b"system");
    expected.children = vec![app];
    assert_eq!(once, expected);
    let again = collect(
        once,
        "/m/system",
        vec![
            (list("/m/system"), listing()),
            (list("/m/system/app"), below()),
            (lstat("/m/system/lost"), Reply::Failed(5)),
        ],
    );
    assert_eq!(again, Ok((expected, true)));
}
