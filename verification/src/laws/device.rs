//! What the host knows of the device and of the modules, put plainly.

use vstd::prelude::*;
use vstd::string::is_ascii_spec_bytes;
#[allow(unused_imports)]
use vstd::string::StringSliceAdditionalSpecFns;
use vstd::utf8::valid_utf8;

use crate::bytes::joined;
use crate::collect::created;
use crate::laws::finding::{new_nodes_are_as_found, replaces_in, truthful, World};
use crate::laws::sources::{
    participants_are_as_found, supported_in, supported_partitions_are_as_found, takes_part_in,
};
use crate::node::{NodeFileType, NodeView};
use crate::protocol::{
    listing_of, readable, Entry, FileKind, Io, Metadata, Outcome, ReplyView, Request, Text,
};
use crate::rules::{device_dir, marker_paths, supported, takes_part, RulesView};

verus! {

/// The host says yes to a question.
pub open spec fn says_yes(world: World, question: Request<Text>) -> bool {
    world(question) == ReplyView::Flag(true)
}

/// The entry that the host reads at `i` in a directory, if it can read one there.
pub open spec fn listed(world: World, dir: Text, i: int) -> Option<Entry<Text>> {
    match world(Request::ListDir(dir)) {
        ReplyView::Listing(l) => if 0 <= i < l.len() {
            l[i]
        } else {
            None
        },
        _ => None,
    }
}

/// Entries that can be read are kept.
pub proof fn lemma_readable_kept(listing: Seq<Option<Entry<Text>>>, i: int) -> (k: int)
    requires
        0 <= i < listing.len(),
        listing[i] is Some,
    ensures
        0 <= k < readable(listing).len(),
        readable(listing)[k] == listing[i]->0,
    decreases listing.len(),
{
    let few = listing.drop_last();
    if i == listing.len() - 1 {
        readable(few).len() as int
    } else {
        lemma_readable_kept(few, i)
    }
}

/// Entries that are kept could be read.
pub proof fn lemma_kept_readable(listing: Seq<Option<Entry<Text>>>, k: int) -> (i: int)
    requires
        0 <= k < readable(listing).len(),
    ensures
        0 <= i < listing.len(),
        listing[i] == Some(readable(listing)[k]),
    decreases listing.len(),
{
    let few = listing.drop_last();
    if k < readable(few).len() {
        lemma_kept_readable(few, k)
    } else {
        listing.len() - 1
    }
}

/// The entries of two listings, one behind the other, are those of the first and then those of the
/// second, so that entries keep their order and the ones that cannot be read leave no gap.
pub proof fn entries_keep_their_order(
    one: Seq<Option<Entry<Text>>>,
    other: Seq<Option<Entry<Text>>>,
)
    ensures
        readable(one + other) == readable(one) + readable(other),
    decreases other.len(),
{
    if other.len() == 0 {
        assert(one + other =~= one);
        assert(readable(one) + readable(other) =~= readable(one));
    } else {
        let both = one + other;
        assert(both.drop_last() =~= one + other.drop_last());
        assert(both.last() == other.last());
        entries_keep_their_order(one, other.drop_last());
        assert(readable(both) =~= readable(one) + readable(other));
    }
}

/// What a directory holds is known exactly if the host lists it. An entry that the host lists at
/// some place is among the entries, and each of the entries stands somewhere in the listing.
pub proof fn listings_are_taken_as_they_are(world: World, dir: Text)
    ensures
        listing_of(world(Request::ListDir(dir))) is Ok <==> world(Request::ListDir(dir)) is Listing,
        listing_of(world(Request::ListDir(dir))) matches Ok(entries) ==> {
            &&& forall|i: int| (#[trigger] listed(world, dir, i)) matches Some(e)
                ==> entries.contains(e)
            &&& forall|k: int|
                0 <= k < entries.len() ==> exists|i: int| #[trigger]
                    listed(world, dir, i) == Some(#[trigger] entries[k])
        },
{
    if let ReplyView::Listing(l) = world(Request::ListDir(dir)) {
        let entries = readable(l);
        assert forall|i: int| (#[trigger] listed(world, dir, i)) is Some implies entries.contains(
            listed(world, dir, i)->0,
        ) by {
            let k = lemma_readable_kept(l, i);
            assert(entries[k] == listed(world, dir, i)->0);
        }
        assert forall|k: int| 0 <= k < entries.len() implies exists|i: int| #[trigger]
            listed(world, dir, i) == Some(#[trigger] entries[k]) by {
            let i = lemma_kept_readable(l, k);
            assert(listed(world, dir, i) == Some(entries[k]));
        }
    }
}

/// Paths are put together as the system does it. The name always stands at the end. An absolute
/// name stands alone. Before any other name stands the base, and between the two a separator unless
/// the base is empty or has one already.
pub proof fn paths_are_put_together(base: Text, name: Text)
    ensures
        ({
            let path = joined(base, name);
            let absolute = name.len() > 0 && name[0] == 47;
            let before = path.len() - name.len();
            &&& before >= 0
            &&& path.skip(before) == name
            &&& absolute ==> before == 0
            &&& !absolute ==> base.len() <= before <= base.len() + 1
            &&& !absolute ==> path.take(base.len() as int) == base
            &&& !absolute && before > base.len() ==> base.len() > 0 && base.last() != 47
                && path[base.len() as int] == 47
            &&& !absolute && before == base.len() ==> base.len() == 0 || base.last() == 47
        }),
{
    let path = joined(base, name);
    let before = path.len() - name.len();
    assert(path.skip(before) =~= name);
    if !(name.len() > 0 && name[0] == 47) {
        assert(path.take(base.len() as int) =~= base);
    }
}

/// It makes no difference in which order three parts of a path are put together.
pub proof fn paths_are_put_together_in_any_order(first: Text, second: Text, third: Text)
    ensures
        joined(joined(first, second), third) == joined(first, joined(second, third)),
{
    let left = joined(joined(first, second), third);
    let right = joined(first, joined(second, third));
    if third.len() > 0 && third[0] == 47 {
    } else if second.len() == 0 {
        assert(first + second =~= first);
        assert(first.push(47) + second =~= first.push(47));
        assert(second + third =~= third);
        assert(left =~= right);
    } else {
        let inner = joined(second, third);
        assert(inner[0] == second[0]);
        assert(joined(first, second).last() == second.last());
        assert(left =~= right);
    }
}

/// Two names in a directory that are not absolute have the same path only if they are the same.
pub proof fn names_have_paths_of_their_own(base: Text, name: Text, other: Text)
    requires
        name.len() > 0 ==> name[0] != 47,
        other.len() > 0 ==> other[0] != 47,
        joined(base, name) == joined(base, other),
    ensures
        name == other,
{
    paths_are_put_together(base, name);
    paths_are_put_together(base, other);
    let path = joined(base, name);
    assert(name =~= path.skip(path.len() - name.len()));
}

/// The directory of the device for a partition is the one of its name at the root.
pub proof fn partitions_are_at_the_root(name: Text)
    requires
        name.len() > 0 ==> name[0] != 47,
    ensures
        device_dir(name) == seq![47u8] + name,
{
    reveal_strlit("/");
    is_ascii_spec_bytes("/");
    assert("/".spec_bytes() =~= seq![47u8]);
}

/// The name of a partition: text, without a dot at the start, and not that of the scripts for
/// installing.
pub open spec fn plain_name(name: Text) -> bool {
    &&& valid_utf8(name)
    &&& name.len() > 0 ==> name[0] != 46
    &&& name != "install_scripts".spec_bytes()
}

/// An entry of a module's directory that is the directory of a partition.
pub open spec fn partition_entry(entry: Entry<Text>) -> bool {
    &&& entry.kind == Ok::<FileKind, u64>(FileKind::Dir)
    &&& plain_name(entry.name)
}

/// A module that is described and is not disabled, about to be removed or kept from being mounted.
pub open spec fn in_use(world: World, rules: RulesView, path: Text) -> bool {
    &&& says_yes(world, Request::Exists(joined(path, "module.prop".spec_bytes())))
    &&& !says_yes(world, Request::Exists(joined(path, rules.disable_file)))
    &&& !says_yes(world, Request::Exists(joined(path, rules.remove_file)))
    &&& !says_yes(world, Request::Exists(joined(path, rules.skip_mount_file)))
}

/// A partition that is listed as supported and that the device has, as a directory or as a link.
pub open spec fn on_device(world: World, rules: RulesView, name: Text) -> bool {
    &&& exists|i: int|
        0 <= i < rules.supported_partitions.len() && #[trigger] rules.supported_partitions[i]
            == name
    &&& says_yes(world, Request::IsDir(joined("/".spec_bytes(), name))) || says_yes(
        world,
        Request::IsSymlink(joined("/".spec_bytes(), name)),
    )
}

/// A module takes part exactly if it is in use.
pub proof fn modules_in_use_take_part(world: World, rules: RulesView, path: Text, io: Io)
    requires
        truthful(world, io, takes_part(rules, path, io)),
    ensures
        takes_part(rules, path, io).out matches Outcome::Done(b) ==> b == in_use(
            world,
            rules,
            path,
        ),
{
    participants_are_as_found(world, rules, path, io);
    lemma_in_use(world, rules, path);
}

/// Taking part is being in use.
pub proof fn lemma_in_use(world: World, rules: RulesView, path: Text)
    ensures
        takes_part_in(world, rules, path) == in_use(world, rules, path),
{
    let paths = marker_paths(rules, path);
    assert(paths[0] == joined(path, rules.disable_file));
    assert(paths[1] == joined(path, rules.remove_file));
    assert(paths[2] == joined(path, rules.skip_mount_file));
}

/// A partition is supported exactly if it is listed and on the device.
pub proof fn partitions_on_the_device_are_supported(
    world: World,
    rules: RulesView,
    name: Text,
    io: Io,
)
    requires
        truthful(world, io, supported(rules, name, io)),
    ensures
        supported(rules, name, io).out matches Outcome::Done(b) ==> b == on_device(
            world,
            rules,
            name,
        ),
{
    supported_partitions_are_as_found(world, rules, name, io);
    lemma_on_device(world, rules, name);
}

/// Being supported is being listed and on the device.
pub proof fn lemma_on_device(world: World, rules: RulesView, name: Text)
    ensures
        supported_in(world, rules, name) == on_device(world, rules, name),
{
}

/// A directory of a module replaces the device's: its attribute is the letter y, or it holds the
/// marker.
pub open spec fn replaces_device(world: World, path: Text) -> bool {
    ||| world(Request::GetXattr { path, name: "trusted.overlay.opaque".spec_bytes() })
        == ReplyView::Data(seq![121u8])
    ||| says_yes(world, Request::Exists(joined(path, ".replace".spec_bytes())))
}

/// A node stands for a file that a module keeps at `path`.
pub open spec fn stands_for(
    world: World,
    name: Text,
    path: Text,
    metadata: Metadata,
    node: NodeView,
) -> bool {
    &&& node.name == name
    &&& node.origin == Some(path)
    &&& node.children.len() == 0
    &&& !node.skip
    &&& match metadata.kind {
        FileKind::File => node.file_type == NodeFileType::RegularFile && !node.replace,
        FileKind::Dir => node.file_type == NodeFileType::Directory && node.replace
            == replaces_device(world, path),
        FileKind::Symlink => node.file_type == NodeFileType::Symlink && !node.replace,
        FileKind::CharDevice => node.file_type == NodeFileType::Whiteout && !node.replace,
        FileKind::Other => node.file_type == NodeFileType::Whiteout && !node.replace,
    }
}

/// The node for a file of a module is of the file's kind and remembers where the file is. There is
/// none if the host cannot look at the file. A directory replaces the device's exactly if it is
/// marked so.
pub proof fn nodes_stand_for_files(world: World, name: Text, path: Text, io: Io)
    requires
        truthful(world, io, created(name, path, io)),
    ensures
        created(name, path, io).out matches Outcome::Done(made) ==> match world(
            Request::Lstat(path),
        ) {
            ReplyView::Stat(metadata) => made matches Some(node) && stands_for(
                world,
                name,
                path,
                metadata,
                node,
            ),
            _ => made is None,
        },
{
    new_nodes_are_as_found(world, name, path, io);
    lemma_replaces_device(world, path);
}

/// A directory replaces the device's if it is marked so.
pub proof fn lemma_replaces_device(world: World, path: Text)
    ensures
        replaces_in(world, path) == replaces_device(world, path),
{
    reveal_strlit("y");
    is_ascii_spec_bytes("y");
    assert("y".spec_bytes() =~= seq![121u8]);
}

} // verus!
