//! Children that are marked to be left out make no difference.

use vstd::prelude::*;

use crate::bytes::lossy_text;
use crate::mount::{
    fill, handled, leftover, lemma_fill_on, lemma_fill_step, lemma_walk_on, lemma_walk_step,
    mounted, visited, walk, without,
};
use crate::node::{distinct, lemma_position, position, NodeView};
use crate::protocol::{done, noted, still_to_come, Entry, Io, Task, Text};

verus! {

/// Mounting children one after the other is the same without one that is to be left out.
pub proof fn filling_leaves_out_marked_children(
    path: Text,
    work: Text,
    children: Seq<NodeView>,
    k: int,
    has_tmpfs: bool,
    io: Io,
)
    requires
        0 <= k < children.len(),
        children[k].skip,
    ensures
        fill(path, work, children, has_tmpfs, io) == fill(
            path,
            work,
            children.remove(k),
            has_tmpfs,
            io,
        ),
    decreases k,
{
    let rest = children.drop_first();
    let task = Task::MagicMount { path, name: children[0].name };
    lemma_fill_step(path, work, children, has_tmpfs, io);
    if k == 0 {
        assert(children.remove(0) =~= rest);
        lemma_fill_on(path, work, rest, has_tmpfs, noted(task, done(io, ())));
    } else {
        let few = children.remove(k);
        assert(few.drop_first() =~= rest.remove(k - 1));
        assert(few[0] == children[0]);
        let run = noted(
            task,
            if children[0].skip {
                done(io, ())
            } else {
                mounted(path, work, children[0], has_tmpfs, io)
            },
        );
        lemma_fill_step(path, work, few, has_tmpfs, io);
        lemma_fill_on(path, work, rest, has_tmpfs, run);
        lemma_fill_on(path, work, few.drop_first(), has_tmpfs, run);
        filling_leaves_out_marked_children(path, work, rest, k - 1, has_tmpfs, run.io);
    }
}

/// Taking out a child of another name leaves a child, at some place.
proof fn lemma_without_other(children: Seq<NodeView>, k: int, name: Text) -> (n: int)
    requires
        distinct(children),
        0 <= k < children.len(),
        children[k].name != name,
    ensures
        0 <= n < without(children, name).len(),
        without(children, name)[n] == children[k],
        without(children, name).remove(n) == without(children.remove(k), name),
        distinct(without(children, name)),
        match position(children, name) {
            Some(p) => position(children.remove(k), name) is Some && children.remove(
                k,
            )[position(children.remove(k), name)->0] == children[p],
            None => position(children.remove(k), name) is None,
        },
{
    let left = without(children, name);
    let few = children.remove(k);
    lemma_position(children, name);
    lemma_position(few, name);
    match position(children, name) {
        Some(p) => {
            let q = if p < k { p } else { p - 1 };
            assert(few[q] == children[p]);
            assert(position(few, name) == Some(q)) by {
                match position(few, name) {
                    Some(r) => {
                        let s = if r < k { r } else { r + 1 };
                        assert(few[r] == children[s]);
                        if s < p {
                            assert(children[s].name != children[p].name);
                        }
                        if p < s {
                            assert(children[p].name != children[s].name);
                        }
                    },
                    None => {
                        assert(few[q].name == name);
                    },
                }
            }
            assert forall|a: int, b: int| 0 <= a < b < left.len() implies (
            #[trigger] left[a]).name != (#[trigger] left[b]).name by {
                let a2 = if a < p { a } else { a + 1 };
                let b2 = if b < p { b } else { b + 1 };
                assert(children[a2].name != children[b2].name);
            }
            let n = if k < p { k } else { k - 1 };
            assert(left.remove(n) =~= few.remove(q));
            n
        },
        None => {
            match position(few, name) {
                Some(r) => {
                    let s = if r < k { r } else { r + 1 };
                    assert(few[r] == children[s]);
                },
                None => {},
            }
            k
        },
    }
}

/// The child that has a name is the one that is taken out with it.
proof fn lemma_without_this(children: Seq<NodeView>, k: int)
    requires
        distinct(children),
        0 <= k < children.len(),
    ensures
        position(children, children[k].name) == Some(k),
        without(children, children[k].name) == children.remove(k),
        position(children.remove(k), children[k].name) is None,
        without(children.remove(k), children[k].name) == children.remove(k),
{
    let name = children[k].name;
    let few = children.remove(k);
    lemma_position(children, name);
    lemma_position(few, name);
    let p = position(children, name)->0;
    if p < k {
        assert(children[p].name != children[k].name);
    }
    match position(few, name) {
        Some(r) => {
            let s = if r < k { r } else { r + 1 };
            assert(few[r] == children[s]);
            if s < k {
                assert(children[s].name != children[k].name);
            } else {
                assert(children[k].name != children[s].name);
            }
        },
        None => {},
    }
}

/// Where a directory is not built anew, dealing with the device's entries is the same without a
/// child that is to be left out, and so are the children that are left behind it, but for that one.
pub proof fn walking_leaves_out_marked_children(
    path: Text,
    work: Text,
    children: Seq<NodeView>,
    entries: Seq<Entry<Text>>,
    i: int,
    k: int,
    io: Io,
)
    requires
        0 <= i,
        distinct(children),
        0 <= k < children.len(),
        children[k].skip,
    ensures
        walk(path, work, children, entries, i, false, io) == walk(
            path,
            work,
            children.remove(k),
            entries,
            i,
            false,
            io,
        ),
    decreases still_to_come(entries, i),
{
    let few = children.remove(k);
    if i >= entries.len() {
        reveal(walk);
    } else {
        let name = lossy_text(entries[i].name);
        let run = visited(path, work, children, entries[i], false, io);
        let same = visited(path, work, few, entries[i], false, io);
        let left = without(children, name);
        let other = without(few, name);
        lemma_walk_step(path, work, children, entries, i, false, io);
        lemma_walk_step(path, work, few, entries, i, false, io);
        lemma_walk_on(path, work, left, entries, i + 1, false, run);
        lemma_walk_on(path, work, other, entries, i + 1, false, same);
        if children[k].name == name {
            lemma_without_this(children, k);
            assert(run == done(io, ())) by {
                reveal(visited);
            }
            assert(same == done(io, ())) by {
                reveal(visited);
            }
        } else {
            let n = lemma_without_other(children, k, name);
            assert(run == same) by {
                reveal(visited);
                reveal(mounted);
            }
            assert(handled(run, false).out is Done || run.out is Waiting);
            walking_leaves_out_marked_children(path, work, left, entries, i + 1, n, run.io);
        }
    }
}

/// The children that are left over are the same without a child that is to be left out, but for
/// that one.
pub proof fn leftovers_leave_out_a_child(
    children: Seq<NodeView>,
    entries: Seq<Entry<Text>>,
    i: int,
    k: int,
)
    requires
        0 <= i,
        distinct(children),
        0 <= k < children.len(),
    ensures
        ({
            let all = leftover(children, entries, i);
            let few = leftover(children.remove(k), entries, i);
            ||| few == all
            ||| exists|n: int|
                0 <= n < all.len() && #[trigger] all[n] == children[k] && few == all.remove(n)
        }),
    decreases still_to_come(entries, i),
{
    let all = leftover(children, entries, i);
    if i >= entries.len() {
        assert(all[k] == children[k]);
    } else {
        let name = lossy_text(entries[i].name);
        if children[k].name == name {
            lemma_without_this(children, k);
        } else {
            let n = lemma_without_other(children, k, name);
            leftovers_leave_out_a_child(without(children, name), entries, i + 1, n);
        }
    }
}

} // verus!
