//! The tree of files that the modules provide.
//!
//! The children of a node are kept in the order in which they were found, and are told apart by
//! their names.

use vstd::prelude::*;

use crate::bytes::{copied, same};
use crate::protocol::{flag_of, stat_of, FileKind, Metadata, Reply, ReplyView, Request, Text};
use crate::script::text_of;

verus! {

/// How a node is mounted.
#[derive(Debug, Clone, Copy, PartialEq, Eq, Structural)]
pub enum NodeFileType {
    RegularFile,
    Directory,
    Symlink,
    /// A mark that whatever the device has there is to be hidden.
    Whiteout,
}

/// A file or directory that modules provide.
#[derive(Debug, PartialEq, Eq)]
pub struct Node {
    pub name: Vec<u8>,
    pub file_type: NodeFileType,
    pub children: Vec<Node>,
    /// Where the module keeps the file. A node without an origin stands for a directory of the
    /// device that holds files of modules.
    pub origin: Option<Vec<u8>>,
    /// Whether the directory hides what the device has there.
    pub replace: bool,
    /// Whether the node is left out when its parent is mounted.
    pub skip: bool,
}

/// A node in specifications.
#[verifier::ext_equal]
pub struct NodeView {
    pub name: Text,
    pub file_type: NodeFileType,
    pub children: Seq<NodeView>,
    pub origin: Option<Text>,
    pub replace: bool,
    pub skip: bool,
}

/// The node that a run-time node stands for.
pub open spec fn node_view(node: Node) -> NodeView
    decreases node,
{
    NodeView {
        name: node.name@,
        file_type: node.file_type,
        children: Seq::new(
            node.children@.len(),
            |i: int|
                if 0 <= i < node.children@.len() {
                    node_view(node.children@[i])
                } else {
                    arbitrary()
                },
        ),
        origin: text_of(node.origin),
        replace: node.replace,
        skip: node.skip,
    }
}

/// The nodes that a list of run-time nodes stands for.
pub open spec fn nodes_view(nodes: Seq<Node>) -> Seq<NodeView> {
    nodes.map_values(|n: Node| node_view(n))
}

impl View for Node {
    type V = NodeView;

    open spec fn view(&self) -> NodeView {
        node_view(*self)
    }
}

/// A node that may be missing.
#[derive(Debug, PartialEq, Eq)]
pub struct MaybeNode(pub Option<Node>);

impl View for MaybeNode {
    type V = Option<NodeView>;

    open spec fn view(&self) -> Option<NodeView> {
        match self.0 {
            Some(node) => Some(node@),
            None => None,
        }
    }
}

/// The children of a node are the views of the run-time children.
pub proof fn lemma_children_view(node: Node)
    ensures
        node@.children == nodes_view(node.children@),
{
    assert(node@.children =~= nodes_view(node.children@));
}

/// How a file of some kind is mounted.
pub open spec fn type_of_kind(kind: FileKind) -> NodeFileType {
    match kind {
        FileKind::File => NodeFileType::RegularFile,
        FileKind::Dir => NodeFileType::Directory,
        FileKind::Symlink => NodeFileType::Symlink,
        _ => NodeFileType::Whiteout,
    }
}

/// How a file of a module is mounted: a character device with the number 0 is a whiteout.
pub open spec fn type_of_file(metadata: Metadata) -> NodeFileType {
    if metadata.kind == FileKind::CharDevice && metadata.rdev == 0 {
        NodeFileType::Whiteout
    } else {
        type_of_kind(metadata.kind)
    }
}

/// What has to be known of the device's file before it is clear whether a node of this type can
/// be mounted over it as it stands.
pub open spec fn probe_of(file_type: NodeFileType, real_path: Text) -> Option<Request<Text>> {
    match file_type {
        NodeFileType::Symlink => None,
        NodeFileType::Whiteout => Some(Request::Exists(real_path)),
        _ => Some(Request::Lstat(real_path)),
    }
}

/// Whether a node can only be mounted on a new directory: a symbolic link always, a whiteout
/// where there is something to hide, and any other node unless the device has a file of the same
/// type there. The reply is that to [`probe_of`].
pub open spec fn needs_tmpfs(file_type: NodeFileType, reply: ReplyView) -> bool {
    match file_type {
        NodeFileType::Symlink => true,
        NodeFileType::Whiteout => flag_of(reply),
        _ => match stat_of(reply) {
            Ok(metadata) => type_of_kind(metadata.kind) != file_type,
            Err(_) => true,
        },
    }
}

impl NodeFileType {
    /// How a file of some kind is mounted.
    pub fn from_file_type(kind: FileKind) -> (file_type: NodeFileType)
        ensures
            file_type == type_of_kind(kind),
    {
        match kind {
            FileKind::File => NodeFileType::RegularFile,
            FileKind::Dir => NodeFileType::Directory,
            FileKind::Symlink => NodeFileType::Symlink,
            _ => NodeFileType::Whiteout,
        }
    }

    /// How a file of a module is mounted.
    pub fn of_module_file(metadata: Metadata) -> (file_type: NodeFileType)
        ensures
            file_type == type_of_file(metadata),
    {
        if metadata.kind == FileKind::CharDevice && metadata.rdev == 0 {
            NodeFileType::Whiteout
        } else {
            NodeFileType::from_file_type(metadata.kind)
        }
    }

    /// The question whose reply [`NodeFileType::needs_tmpfs_vs_real`] takes; a symbolic link
    /// needs none.
    pub fn probe(self, real_path: &[u8]) -> (request: Option<Request<Vec<u8>>>)
        ensures
            request is Some <==> probe_of(self, real_path@) is Some,
            request matches Some(r) ==> probe_of(self, real_path@) == Some(r@),
    {
        match self {
            NodeFileType::Symlink => None,
            NodeFileType::Whiteout => Some(Request::Exists(copied(real_path))),
            _ => Some(Request::Lstat(copied(real_path))),
        }
    }

    /// Whether a node of this type can only be mounted on a new directory, as the device's own
    /// file differs in type or is missing.
    pub fn needs_tmpfs_vs_real(self, reply: Reply) -> (needed: bool)
        ensures
            needed == needs_tmpfs(self, reply@),
    {
        match self {
            NodeFileType::Symlink => true,
            NodeFileType::Whiteout => reply.into_flag(),
            _ => match reply.into_stat() {
                Ok(metadata) => NodeFileType::from_file_type(metadata.kind) != self,
                Err(_) => true,
            },
        }
    }
}

/// A directory of the device, with nothing in it.
pub open spec fn root_node(name: Text) -> NodeView {
    NodeView {
        name,
        file_type: NodeFileType::Directory,
        children: Seq::empty(),
        origin: None,
        replace: false,
        skip: false,
    }
}

/// A file that a module keeps at `origin`.
pub open spec fn module_node(
    name: Text,
    file_type: NodeFileType,
    origin: Text,
    replace: bool,
) -> NodeView {
    NodeView { name, file_type, children: Seq::empty(), origin: Some(origin), replace, skip: false }
}

/// The place of the first node with a name.
pub open spec fn position(nodes: Seq<NodeView>, name: Text) -> Option<int>
    decreases nodes.len(),
{
    if nodes.len() == 0 {
        None
    } else if nodes[0].name == name {
        Some(0)
    } else {
        match position(nodes.drop_first(), name) {
            Some(k) => Some(k + 1),
            None => None,
        }
    }
}

/// Whether no two nodes of a list have the same name.
pub open spec fn distinct(nodes: Seq<NodeView>) -> bool {
    forall|i: int, j: int|
        0 <= i < j < nodes.len() ==> (#[trigger] nodes[i]).name != (#[trigger] nodes[j]).name
}

/// Adds a node unless there is one with its name already.
pub open spec fn or_insert(nodes: Seq<NodeView>, node: NodeView) -> Seq<NodeView> {
    if position(nodes, node.name) is Some {
        nodes
    } else {
        nodes.push(node)
    }
}

/// Adds those nodes, in order, whose names are not there already.
pub open spec fn merged(nodes: Seq<NodeView>, more: Seq<NodeView>) -> Seq<NodeView>
    decreases more.len(),
{
    if more.len() == 0 {
        nodes
    } else {
        merged(or_insert(nodes, more[0]), more.drop_first())
    }
}

/// Adds a node. Where there is one with its name, that one stays and only takes over the
/// children that it lacks.
pub open spec fn absorbed(nodes: Seq<NodeView>, node: NodeView) -> Seq<NodeView> {
    match position(nodes, node.name) {
        Some(k) => nodes.update(
            k,
            NodeView { children: merged(nodes[k].children, node.children), ..nodes[k] },
        ),
        None => nodes.push(node),
    }
}

/// Adds a node in place of any other with its name.
pub open spec fn replaced(nodes: Seq<NodeView>, node: NodeView) -> Seq<NodeView> {
    match position(nodes, node.name) {
        Some(k) => nodes.update(k, node),
        None => nodes.push(node),
    }
}

/// What the place of a name means.
pub proof fn lemma_position(nodes: Seq<NodeView>, name: Text)
    ensures
        match position(nodes, name) {
            Some(k) => {
                &&& 0 <= k < nodes.len()
                &&& nodes[k].name == name
                &&& forall|j: int| 0 <= j < k ==> (#[trigger] nodes[j]).name != name
            },
            None => forall|j: int| 0 <= j < nodes.len() ==> (#[trigger] nodes[j]).name != name,
        },
    decreases nodes.len(),
{
    if nodes.len() > 0 && nodes[0].name != name {
        let rest = nodes.drop_first();
        lemma_position(rest, name);
        assert forall|j: int| 0 < j < nodes.len() implies nodes[j] == rest[j - 1] by {}
        match position(rest, name) {
            Some(k) => {
                assert forall|j: int| 0 <= j < k + 1 implies (#[trigger] nodes[j]).name != name by {
                    if j > 0 {
                        assert(nodes[j] == rest[j - 1]);
                    }
                }
            },
            None => {
                assert forall|j: int| 0 <= j < nodes.len() implies (#[trigger] nodes[j]).name
                    != name by {
                    if j > 0 {
                        assert(nodes[j] == rest[j - 1]);
                    }
                }
            },
        }
    }
}

/// The first node with a name is where the search finds it.
pub proof fn lemma_position_is(nodes: Seq<NodeView>, name: Text, k: int)
    requires
        0 <= k < nodes.len(),
        nodes[k].name == name,
        forall|j: int| 0 <= j < k ==> (#[trigger] nodes[j]).name != name,
    ensures
        position(nodes, name) == Some(k),
{
    lemma_position(nodes, name);
}

/// The place of the first node with a name.
pub fn find(nodes: &Vec<Node>, name: &[u8]) -> (place: Option<usize>)
    ensures
        match place {
            Some(k) => k < nodes.len() && position(nodes_view(nodes@), name@) == Some(k as int),
            None => position(nodes_view(nodes@), name@) is None,
        },
{
    let ghost view = nodes_view(nodes@);
    let mut i: usize = 0;
    while i < nodes.len()
        invariant
            i <= nodes.len(),
            view == nodes_view(nodes@),
            forall|j: int| 0 <= j < i ==> (#[trigger] view[j]).name != name@,
        decreases nodes.len() - i,
    {
        assert(view[i as int] == nodes@[i as int]@);
        if same(nodes[i].name.as_slice(), name) {
            proof {
                lemma_position_is(view, name@, i as int);
            }
            return Some(i);
        }
        i += 1;
    }
    proof {
        lemma_position(view, name@);
    }
    None
}

/// Adds those nodes, in order, whose names are not there already.
pub fn merge(nodes: &mut Vec<Node>, more: Vec<Node>)
    ensures
        nodes_view(final(nodes)@) == merged(nodes_view(old(nodes)@), nodes_view(more@)),
{
    let ghost goal = merged(nodes_view(nodes@), nodes_view(more@));
    let mut more = more;
    while more.len() > 0
        invariant
            merged(nodes_view(nodes@), nodes_view(more@)) == goal,
        decreases more.len(),
    {
        let ghost before = nodes_view(nodes@);
        let ghost rest = nodes_view(more@);
        let node = more.remove(0);
        assert(rest[0] == node@);
        assert(rest.drop_first() =~= nodes_view(more@));
        if find(nodes, node.name.as_slice()).is_none() {
            nodes.push(node);
            assert(nodes_view(nodes@) =~= before.push(node@));
        }
    }
    assert(nodes_view(more@) =~= Seq::empty());
}

/// Adds a node. Where there is one with its name, that one stays and only takes over the
/// children that it lacks.
pub fn absorb(nodes: &mut Vec<Node>, node: Node)
    ensures
        nodes_view(final(nodes)@) == absorbed(nodes_view(old(nodes)@), node@),
{
    let ghost before = nodes_view(nodes@);
    match find(nodes, node.name.as_slice()) {
        Some(k) => {
            let mut present = nodes.remove(k);
            let ghost was = present;
            proof {
                lemma_children_view(was);
                lemma_children_view(node);
            }
            merge(&mut present.children, node.children);
            proof {
                lemma_children_view(present);
                assert(was@ == before[k as int]);
            }
            nodes.insert(k, present);
            assert(nodes_view(nodes@) =~= absorbed(before, node@));
        },
        None => {
            nodes.push(node);
            assert(nodes_view(nodes@) =~= before.push(node@));
        },
    }
}

/// Adds a node in place of any other with its name.
pub fn put(nodes: &mut Vec<Node>, node: Node)
    ensures
        nodes_view(final(nodes)@) == replaced(nodes_view(old(nodes)@), node@),
{
    let ghost before = nodes_view(nodes@);
    match find(nodes, node.name.as_slice()) {
        Some(k) => {
            nodes.set(k, node);
            assert(nodes_view(nodes@) =~= replaced(before, node@));
        },
        None => {
            nodes.push(node);
            assert(nodes_view(nodes@) =~= before.push(node@));
        },
    }
}

impl Node {
    /// A directory of the device, with nothing in it.
    pub fn new_root(name: &[u8]) -> (node: Node)
        ensures
            node@ == root_node(name@),
    {
        let node = Node {
            name: copied(name),
            file_type: NodeFileType::Directory,
            children: Vec::new(),
            origin: None,
            replace: false,
            skip: false,
        };
        assert(node@.children =~= Seq::empty());
        node
    }

    /// A file that a module keeps at `origin`.
    pub fn of_module(
        name: Vec<u8>,
        file_type: NodeFileType,
        origin: Vec<u8>,
        replace: bool,
    ) -> (node: Node)
        ensures
            node@ == module_node(name@, file_type, origin@, replace),
    {
        let node = Node {
            name,
            file_type,
            children: Vec::new(),
            origin: Some(origin),
            replace,
            skip: false,
        };
        assert(node@.children =~= Seq::empty());
        node
    }
}

} // verus!
