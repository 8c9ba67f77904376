use magic_mount::node::{absorb, find, merge, put, Node, NodeFileType};
use magic_mount::protocol::{FileKind, Metadata, Reply, Request};

fn b(s: &str) -> Vec<u8> {
    s.as_bytes().to_vec()
}

fn metadata(kind: FileKind, rdev: u64) -> Metadata {
    Metadata { kind, rdev, mode: 0o100644, uid: 0, gid: 0 }
}

fn file(name: &str, origin: &str) -> Node {
    Node::of_module(b(name), NodeFileType::RegularFile, b(origin), false)
}

fn names(nodes: &Vec<Node>) -> Vec<Vec<u8>> {
    nodes.iter().map(|n| n.name.clone()).collect()
}

#[test]
fn kinds_decide_how_files_are_mounted() {
    assert_eq!(NodeFileType::from_file_type(FileKind::File), NodeFileType::RegularFile);
    assert_eq!(NodeFileType::from_file_type(FileKind::Dir), NodeFileType::Directory);
    assert_eq!(NodeFileType::from_file_type(FileKind::Symlink), NodeFileType::Symlink);
    assert_eq!(NodeFileType::from_file_type(FileKind::CharDevice), NodeFileType::Whiteout);
    assert_eq!(NodeFileType::from_file_type(FileKind::Other), NodeFileType::Whiteout);
}

#[test]
fn devices_without_number_are_whiteouts() {
    let whiteout = metadata(FileKind::CharDevice, 0);
    assert_eq!(NodeFileType::of_module_file(whiteout), NodeFileType::Whiteout);
    let regular = metadata(FileKind::File, 0);
    assert_eq!(NodeFileType::of_module_file(regular), NodeFileType::RegularFile);
}

#[test]
fn links_always_need_a_new_directory() {
    assert_eq!(NodeFileType::Symlink.probe(&b("/system/a")), None);
    assert!(NodeFileType::Symlink.needs_tmpfs_vs_real(Reply::Done));
}

#[test]
fn whiteouts_need_a_new_directory_where_there_is_something() {
    let probe = NodeFileType::Whiteout.probe(&b("/system/a"));
    assert_eq!(probe, Some(Request::Exists(b("/system/a"))));
    assert!(NodeFileType::Whiteout.needs_tmpfs_vs_real(Reply::Flag(true)));
    assert!(!NodeFileType::Whiteout.needs_tmpfs_vs_real(Reply::Flag(false)));
}

#[test]
fn files_need_a_new_directory_unless_the_device_has_one_of_their_type() {
    let file = NodeFileType::RegularFile;
    assert_eq!(file.probe(&b("/system/a")), Some(Request::Lstat(b("/system/a"))));
    assert!(!file.needs_tmpfs_vs_real(Reply::Stat(metadata(FileKind::File, 0))));
    assert!(file.needs_tmpfs_vs_real(Reply::Stat(metadata(FileKind::Dir, 0))));
    assert!(file.needs_tmpfs_vs_real(Reply::Stat(metadata(FileKind::Symlink, 0))));
    assert!(file.needs_tmpfs_vs_real(Reply::Failed(2)));
    let dir = NodeFileType::Directory;
    assert!(!dir.needs_tmpfs_vs_real(Reply::Stat(metadata(FileKind::Dir, 0))));
    assert!(dir.needs_tmpfs_vs_real(Reply::Stat(metadata(FileKind::Symlink, 0))));
}

#[test]
fn roots_are_empty_directories_of_the_device() {
    let root = Node::new_root(b"system");
    assert_eq!(
        root,
        Node {
            name: b("system"),
            file_type: NodeFileType::Directory,
            children: vec![],
            origin: None,
            replace: false,
            skip: false,
        }
    );
}

#[test]
fn merging_keeps_the_nodes_of_the_first() {
    let mut nodes = vec![file("a", "/one/a"), file("b", "/one/b")];
    merge(&mut nodes, vec![file("b", "/two/b"), file("c", "/two/c"), file("c", "/two/d")]);
    assert_eq!(nodes, vec![file("a", "/one/a"), file("b", "/one/b"), file("c", "/two/c")]);
}

#[test]
fn absorbing_takes_over_what_is_missing() {
    let mut vendor = Node::new_root(b"vendor");
    vendor.children = vec![file("a", "/one/a")];
    let mut other = Node::new_root(b"vendor");
    other.children = vec![file("a", "/two/a"), file("b", "/two/b")];
    other.replace = true;
    let mut nodes = vec![vendor];
    absorb(&mut nodes, other);
    absorb(&mut nodes, Node::new_root(b"odm"));
    assert_eq!(names(&nodes), vec![b("vendor"), b("odm")]);
    assert_eq!(nodes[0].children, vec![file("a", "/one/a"), file("b", "/two/b")]);
    assert!(!nodes[0].replace);
}

#[test]
fn putting_takes_the_place_of_an_equal_name() {
    let mut nodes = vec![file("a", "/one/a"), file("b", "/one/b")];
    put(&mut nodes, file("a", "/two/a"));
    put(&mut nodes, file("c", "/two/c"));
    assert_eq!(nodes, vec![file("a", "/two/a"), file("b", "/one/b"), file("c", "/two/c")]);
}

#[test]
fn nodes_are_found_by_name() {
    let nodes = vec![file("a", "/one/a"), file("b", "/one/b")];
    assert_eq!(find(&nodes, b"b"), Some(1));
    assert_eq!(find(&nodes, b"c"), None);
}
