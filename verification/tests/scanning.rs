use magic_mount::node::{Node, NodeFileType};
use magic_mount::protocol::{
    Entry, Error, FileKind, Machine, Metadata, Reply, Request, Turn,
};
use magic_mount::rules::Rules;
use magic_mount::scan::{collect_module_files, Scanning};

fn b(s: &str) -> Vec<u8> {
    s.as_bytes().to_vec()
}

/// Plays the host: each request has to be the one that is expected, and gets the reply that goes
/// with it.
fn converse<M: Machine>(
    turn: Turn<M>,
    resume: impl Fn(M, Reply) -> Turn<M>,
    script: Vec<(Request<Vec<u8>>, Reply)>,
) -> Result<M::Value, Error<Vec<u8>>> {
    let mut turn = turn;
    for (expected, reply) in script {
        match turn {
            Turn::Ask(request, machine) => {
                assert_eq!(request, expected);
                turn = resume(machine, reply);
            }
            Turn::Done(_) => panic!("ended before {:?}", expected),
            Turn::Fail(e) => panic!("failed with {:?} before {:?}", e, expected),
        }
    }
    match turn {
        Turn::Ask(request, _) => panic!("asked for {:?}", request),
        Turn::Done(value) => Ok(value),
        Turn::Fail(e) => Err(e),
    }
}

fn yes() -> Reply {
    Reply::Flag(true)
}

fn no() -> Reply {
    Reply::Flag(false)
}

fn is_there(path: &str) -> Request<Vec<u8>> {
    Request::Exists(b(path))
}

fn list(path: &str) -> Request<Vec<u8>> {
    Request::ListDir(b(path))
}

fn entry(name: &str, kind: FileKind) -> Option<Entry<Vec<u8>>> {
    Some(Entry { name: b(name), kind: Ok(kind) })
}

fn stat(kind: FileKind) -> Reply {
    Reply::Stat(Metadata { kind, rdev: 0, mode: 0o755, uid: 0, gid: 0 })
}

fn lstat(path: &str) -> Request<Vec<u8>> {
    Request::Lstat(b(path))
}

fn is_dir(path: &str) -> Request<Vec<u8>> {
    Request::IsDir(b(path))
}

fn is_link(path: &str) -> Request<Vec<u8>> {
    Request::IsSymlink(b(path))
}

fn file(name: &str, origin: &str) -> Node {
    Node::of_module(b(name), NodeFileType::RegularFile, b(origin), false)
}

fn dir(name: &str, children: Vec<Node>) -> Node {
    let mut node = Node::new_root(name.as_bytes());
    node.children = children;
    node
}

fn module_dir(name: &str, origin: &str, children: Vec<Node>) -> Node {
    let mut node = Node::of_module(b(name), NodeFileType::Directory, b(origin), false);
    node.children = children;
    node
}

fn rules() -> Rules {
    Rules {
        module_dir: b("/modules"),
        disable_file: b("disable"),
        remove_file: b("remove"),
        skip_mount_file: b("skip_mount"),
        supported_partitions: vec![b("vendor"), b("odm"), b("system")],
    }
}

fn scan(script: Vec<(Request<Vec<u8>>, Reply)>) -> Result<Option<Node>, Error<Vec<u8>>> {
    converse(collect_module_files(rules()), Scanning::resume, script).map(|found| found.0)
}

/// The module takes part.
fn taking_part(module: &str) -> Vec<(Request<Vec<u8>>, Reply)> {
    vec![
        (is_there(&format!("{module}/module.prop")), yes()),
        (is_there(&format!("{module}/disable")), no()),
        (is_there(&format!("{module}/remove")), no()),
        (is_there(&format!("{module}/skip_mount")), no()),
    ]
}

/// None of the partitions that may be taken to the root is one on the device.
fn no_promotion() -> Vec<(Request<Vec<u8>>, Reply)> {
    ["/vendor", "/system_ext", "/product", "/odm", "/oem"]
        .iter()
        .map(|p| (is_dir(p), no()))
        .collect()
}

#[test]
fn without_modules_there_is_no_tree() {
    assert_eq!(scan(vec![(list("/modules"), Reply::Listing(vec![]))]), Ok(None));
}

#[test]
fn the_directory_of_the_modules_has_to_be_listed() {
    assert_eq!(scan(vec![(list("/modules"), Reply::Failed(2))]), Err(Error::Failed(2)));
}

#[test]
fn files_beside_the_modules_are_passed_over() {
    let found = scan(vec![(
        list("/modules"),
        Reply::Listing(vec![entry("notes", FileKind::File), None]),
    )]);
    assert_eq!(found, Ok(None));
}

#[test]
fn a_module_of_unknown_kind_fails() {
    let found = scan(vec![(
        list("/modules"),
        Reply::Listing(vec![Some(Entry { name: b("one"), kind: Err(7) })]),
    )]);
    assert_eq!(found, Err(Error::Failed(7)));
}

#[test]
fn a_module_whose_name_is_not_text_fails() {
    let found = scan(vec![(
        list("/modules"),
        Reply::Listing(vec![Some(Entry { name: vec![0xc3], kind: Ok(FileKind::Dir) })]),
    )]);
    assert_eq!(found, Err(Error::ModuleName(vec![0xc3])));
}

#[test]
fn modules_that_do_not_take_part_add_nothing() {
    let found = scan(vec![
        (list("/modules"), Reply::Listing(vec![entry("one", FileKind::Dir)])),
        (is_there("/modules/one/module.prop"), no()),
    ]);
    assert_eq!(found, Ok(None));
}

#[test]
fn system_files_are_collected() {
    let mut script =
        vec![(list("/modules"), Reply::Listing(vec![entry("one", FileKind::Dir)]))];
    script.extend(taking_part("/modules/one"));
    script.extend(vec![
        (is_dir("/modules/one/system"), yes()),
        (list("/modules/one/system"), Reply::Listing(vec![entry("f", FileKind::File)])),
        (lstat("/modules/one/system/f"), stat(FileKind::File)),
        (list("/modules/one"), Reply::Listing(vec![entry("system", FileKind::Dir)])),
    ]);
    script.extend(no_promotion());
    let expected = dir("", vec![dir("system", vec![file("f", "/modules/one/system/f")])]);
    assert_eq!(scan(script), Ok(Some(expected)));
}

#[test]
fn a_module_with_nothing_to_mount_makes_no_tree() {
    let mut script =
        vec![(list("/modules"), Reply::Listing(vec![entry("one", FileKind::Dir)]))];
    script.extend(taking_part("/modules/one"));
    script.extend(vec![
        (is_dir("/modules/one/system"), no()),
        (
            list("/modules/one"),
            Reply::Listing(vec![
                entry("odm", FileKind::Dir),
                entry("vendor", FileKind::Dir),
                entry("data", FileKind::Dir),
                entry("install_scripts", FileKind::Dir),
                entry(".hidden", FileKind::Dir),
                entry("module.prop", FileKind::File),
                Some(Entry { name: b("odm"), kind: Err(4) }),
                None,
            ]),
        ),
        (is_dir("/odm"), yes()),
        (list("/modules/one/odm"), Reply::Listing(vec![])),
        (is_dir("/vendor"), no()),
        (is_link("/vendor"), no()),
    ]);
    assert_eq!(scan(script), Ok(None));
}

#[test]
fn partitions_of_several_modules_are_merged() {
    let mut script = vec![(
        list("/modules"),
        Reply::Listing(vec![entry("one", FileKind::Dir), entry("two", FileKind::Dir)]),
    )];
    script.extend(taking_part("/modules/one"));
    script.extend(vec![
        (is_dir("/modules/one/system"), no()),
        (list("/modules/one"), Reply::Listing(vec![entry("odm", FileKind::Dir)])),
        (is_dir("/odm"), yes()),
        (list("/modules/one/odm"), Reply::Listing(vec![entry("a", FileKind::File)])),
        (lstat("/modules/one/odm/a"), stat(FileKind::File)),
    ]);
    script.extend(taking_part("/modules/two"));
    script.extend(vec![
        (is_dir("/modules/two/system"), no()),
        (list("/modules/two"), Reply::Listing(vec![entry("odm", FileKind::Dir)])),
        (is_dir("/odm"), yes()),
        (
            list("/modules/two/odm"),
            Reply::Listing(vec![entry("a", FileKind::File), entry("b", FileKind::File)]),
        ),
        (lstat("/modules/two/odm/a"), stat(FileKind::File)),
        (lstat("/modules/two/odm/b"), stat(FileKind::File)),
    ]);
    script.extend(no_promotion());
    let odm = dir("odm", vec![file("a", "/modules/one/odm/a"), file("b", "/modules/two/odm/b")]);
    let expected = dir("", vec![odm, dir("system", vec![])]);
    assert_eq!(scan(script), Ok(Some(expected)));
}

#[test]
fn partitions_below_system_are_taken_to_the_root() {
    let mut script =
        vec![(list("/modules"), Reply::Listing(vec![entry("one", FileKind::Dir)]))];
    script.extend(taking_part("/modules/one"));
    let xattr = |path: &str| Request::GetXattr {
        path: b(path),
        name: b("trusted.overlay.opaque"),
    };
    script.extend(vec![
        (is_dir("/modules/one/system"), yes()),
        (
            list("/modules/one/system"),
            Reply::Listing(vec![
                entry("vendor", FileKind::Dir),
                entry("product", FileKind::Dir),
                entry("odm", FileKind::Dir),
            ]),
        ),
        (lstat("/modules/one/system/vendor"), stat(FileKind::Dir)),
        (xattr("/modules/one/system/vendor"), Reply::Failed(61)),
        (is_there("/modules/one/system/vendor/.replace"), no()),
        (list("/modules/one/system/vendor"), Reply::Listing(vec![entry("v", FileKind::File)])),
        (lstat("/modules/one/system/vendor/v"), stat(FileKind::File)),
        (lstat("/modules/one/system/product"), stat(FileKind::Dir)),
        (xattr("/modules/one/system/product"), Reply::Failed(61)),
        (is_there("/modules/one/system/product/.replace"), no()),
        (list("/modules/one/system/product"), Reply::Listing(vec![])),
        (lstat("/modules/one/system/odm"), stat(FileKind::Dir)),
        (xattr("/modules/one/system/odm"), Reply::Failed(61)),
        (is_there("/modules/one/system/odm/.replace"), no()),
        (list("/modules/one/system/odm"), Reply::Listing(vec![])),
        (list("/modules/one"), Reply::Listing(vec![entry("system", FileKind::Dir)])),
        (is_dir("/vendor"), yes()),
        (is_link("/system/vendor"), yes()),
        (is_dir("/system_ext"), yes()),
        (is_link("/system/system_ext"), yes()),
        (is_dir("/product"), yes()),
        (is_link("/system/product"), no()),
        (is_dir("/odm"), yes()),
        (is_dir("/oem"), no()),
    ]);
    let vendor = module_dir(
        "vendor",
        "/modules/one/system/vendor",
        vec![file("v", "/modules/one/system/vendor/v")],
    );
    let odm = module_dir("odm", "/modules/one/system/odm", vec![]);
    let product = module_dir("product", "/modules/one/system/product", vec![]);
    let expected = dir("", vec![vendor, odm, dir("system", vec![product])]);
    assert_eq!(scan(script), Ok(Some(expected)));
}

#[test]
fn a_module_whose_directory_cannot_be_listed_fails() {
    let mut script =
        vec![(list("/modules"), Reply::Listing(vec![entry("one", FileKind::Dir)]))];
    script.extend(taking_part("/modules/one"));
    script.extend(vec![
        (is_dir("/modules/one/system"), no()),
        (list("/modules/one"), Reply::Failed(13)),
    ]);
    assert_eq!(scan(script), Err(Error::Failed(13)));
}

#[test]
fn a_partition_that_cannot_be_collected_fails() {
    let mut script =
        vec![(list("/modules"), Reply::Listing(vec![entry("one", FileKind::Dir)]))];
    script.extend(taking_part("/modules/one"));
    script.extend(vec![
        (is_dir("/modules/one/system"), no()),
        (list("/modules/one"), Reply::Listing(vec![entry("odm", FileKind::Dir)])),
        (is_dir("/odm"), yes()),
        (list("/modules/one/odm"), Reply::Failed(13)),
    ]);
    assert_eq!(scan(script), Err(Error::Failed(13)));
}

/// What is asked of a module with one file for the system partition.
fn one_file() -> Vec<(Request<Vec<u8>>, Reply)> {
    let mut script = taking_part("/modules/one");
    script.extend(vec![
        (is_dir("/modules/one/system"), yes()),
        (list("/modules/one/system"), Reply::Listing(vec![entry("f", FileKind::File)])),
        (lstat("/modules/one/system/f"), stat(FileKind::File)),
        (list("/modules/one"), Reply::Listing(vec![entry("system", FileKind::Dir)])),
    ]);
    script
}

#[test]
fn modules_that_do_not_take_part_make_no_difference() {
    let mut with_them = vec![(
        list("/modules"),
        Reply::Listing(vec![
            entry("bare", FileKind::Dir),
            entry("notes", FileKind::File),
            entry("one", FileKind::Dir),
            entry("off", FileKind::Dir),
        ]),
    )];
    with_them.push((is_there("/modules/bare/module.prop"), no()));
    with_them.extend(one_file());
    with_them.push((is_there("/modules/off/module.prop"), yes()));
    with_them.push((is_there("/modules/off/disable"), yes()));
    with_them.extend(no_promotion());
    let mut without_them =
        vec![(list("/modules"), Reply::Listing(vec![entry("one", FileKind::Dir)]))];
    without_them.extend(one_file());
    without_them.extend(no_promotion());
    let found = scan(with_them);
    assert_eq!(found, scan(without_them));
    assert!(matches!(found, Ok(Some(_))));
}

#[test]
fn both_places_for_a_partition_are_merged() {
    let mut script =
        vec![(list("/modules"), Reply::Listing(vec![entry("one", FileKind::Dir)]))];
    script.extend(taking_part("/modules/one"));
    let opaque = Request::GetXattr {
        path: b("/modules/one/system/odm"),
        name: b("trusted.overlay.opaque"),
    };
    script.extend(vec![
        (is_dir("/modules/one/system"), yes()),
        (list("/modules/one/system"), Reply::Listing(vec![entry("odm", FileKind::Dir)])),
        (lstat("/modules/one/system/odm"), stat(FileKind::Dir)),
        (opaque, Reply::Failed(61)),
        (is_there("/modules/one/system/odm/.replace"), no()),
        (
            list("/modules/one/system/odm"),
            Reply::Listing(vec![entry("a", FileKind::File), entry("b", FileKind::File)]),
        ),
        (lstat("/modules/one/system/odm/a"), stat(FileKind::File)),
        (lstat("/modules/one/system/odm/b"), stat(FileKind::File)),
        (list("/modules/one"), Reply::Listing(vec![entry("odm", FileKind::Dir)])),
        (is_dir("/odm"), yes()),
        (list("/modules/one/odm"), Reply::Listing(vec![entry("a", FileKind::File)])),
        (lstat("/modules/one/odm/a"), stat(FileKind::File)),
        (is_dir("/vendor"), no()),
        (is_dir("/system_ext"), no()),
        (is_dir("/product"), no()),
        (is_dir("/odm"), yes()),
        (is_dir("/oem"), no()),
    ]);
    let odm = dir(
        "odm",
        vec![file("a", "/modules/one/odm/a"), file("b", "/modules/one/system/odm/b")],
    );
    let expected = dir("", vec![odm, dir("system", vec![])]);
    assert_eq!(scan(script), Ok(Some(expected)));
}

#[test]
fn a_link_in_the_place_of_an_earlier_directory_is_nothing_to_mount() {
    let mut script = vec![(
        list("/modules"),
        Reply::Listing(vec![entry("one", FileKind::Dir), entry("two", FileKind::Dir)]),
    )];
    let opaque = Request::GetXattr {
        path: b("/modules/one/system/a"),
        name: b("trusted.overlay.opaque"),
    };
    script.extend(taking_part("/modules/one"));
    script.extend(vec![
        (is_dir("/modules/one/system"), yes()),
        (list("/modules/one/system"), Reply::Listing(vec![entry("a", FileKind::Dir)])),
        (lstat("/modules/one/system/a"), stat(FileKind::Dir)),
        (opaque, Reply::Failed(61)),
        (is_there("/modules/one/system/a/.replace"), no()),
        (list("/modules/one/system/a"), Reply::Listing(vec![])),
        (list("/modules/one"), Reply::Listing(vec![entry("system", FileKind::Dir)])),
    ]);
    script.extend(taking_part("/modules/two"));
    script.extend(vec![
        (is_dir("/modules/two/system"), yes()),
        (list("/modules/two/system"), Reply::Listing(vec![entry("a", FileKind::Symlink)])),
        (list("/modules/two/system/a"), Reply::Listing(vec![])),
        (list("/modules/two"), Reply::Listing(vec![entry("system", FileKind::Dir)])),
    ]);
    assert_eq!(scan(script), Ok(None));
}
