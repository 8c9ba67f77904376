//! Overlays are mounted exactly if the kernel's list of file systems names them.

use vstd::prelude::*;
use vstd::string::is_ascii_spec_bytes;
#[allow(unused_imports)]
use vstd::string::StringSliceAdditionalSpecFns;

use crate::bytes::occurs_in;
use crate::laws::conversation::{
    lemma_end, lemma_proceeds, lemma_then, lemma_weaken, proceeds, Limits,
};
use crate::laws::overlays::lemma_simple_steps;
use crate::laws::reading::{
    lemma_asked, module_queries, partitions_found_only_reads, search_only_reads,
};
use crate::laws::remounting::kernel_asked;
use crate::overlay::{
    mounted_marker, overlay_marked, overlay_steps, overlay_target, overlays_found, overlays_from,
    overlays_known, overlays_listed, overlays_mounted, overlays_ready, partitions_found,
    PartitionView, Search,
};
use crate::protocol::{ask, readable, Error, Io, Outcome, ReplyView, Request, Text};
use crate::rules::{device_dir, RulesView};
use crate::script::{must, perform};

verus! {

/// The letters of the word overlay stand in a text from `i` on.
pub open spec fn overlay_stands_at(text: Text, i: int) -> bool {
    &&& 0 <= i
    &&& i + 7 <= text.len()
    &&& text[i] == 111
    &&& text[i + 1] == 118
    &&& text[i + 2] == 101
    &&& text[i + 3] == 114
    &&& text[i + 4] == 108
    &&& text[i + 5] == 97
    &&& text[i + 6] == 121
}

/// Anything may be asked, and any error may come but for the one that overlays are not known.
pub open spec fn overlays_are_known() -> Limits {
    Limits { allowed: |r: Request<Text>| true, excused: |e: Error<Text>| !(e is NoOverlay) }
}

/// Mounting overlays over partitions that were found does not end as if overlays were not known.
proof fn lemma_known_from(work_base: Text, partitions: Seq<PartitionView>, i: int, io: Io)
    requires
        0 <= i,
    ensures
        proceeds(io, overlays_from(work_base, partitions, i, io), overlays_are_known()),
    decreases partitions.len() - i,
{
    reveal(overlays_from);
    let q = overlays_are_known();
    if i >= partitions.len() {
        lemma_end(io, Outcome::Done(()), q);
    } else {
        let partition = partitions[i];
        let whole = overlays_from(work_base, partitions, i, io);
        let target = Request::Exists(device_dir(partition.name));
        let first = ask(io, target);
        if first.out is Done {
            let reply = io.rest[0];
            assert(whole == overlay_target(work_base, partitions, i, reply, first.io));
            lemma_known_from(work_base, partitions, i + 1, first.io);
            if reply == ReplyView::Flag(true) {
                let marker = Request::Exists(mounted_marker(partition.name));
                let second = ask(first.io, marker);
                if second.out is Done {
                    let marked = first.io.rest[0];
                    assert(whole == overlay_marked(work_base, partitions, i, marked, second.io));
                    lemma_known_from(work_base, partitions, i + 1, second.io);
                    let steps = overlay_steps(work_base, partition);
                    let mounting = perform(steps, second.io);
                    lemma_simple_steps(steps, second.io, q);
                    lemma_known_from(work_base, partitions, i + 1, mounting.io);
                    let ready = overlays_ready(work_base, partitions, i + 1, mounting);
                    lemma_then(second.io, mounting, ready, q);
                }
                lemma_asked(first.io, marker, whole, q);
            }
        }
        lemma_asked(io, target, whole, q);
    }
}

/// Mounting overlays for what modules have does not end as if overlays were not known. It starts
/// with listing the modules.
proof fn lemma_known_found(rules: RulesView, work_base: Text, io: Io)
    ensures
        ({
            let whole = overlays_found(work_base, partitions_found(rules, io));
            &&& proceeds(io, whole, overlays_are_known())
            &&& whole.io.asked.len() > io.asked.len()
            &&& whole.io.asked[io.asked.len() as int] == Request::ListDir(rules.module_dir)
        }),
{
    reveal(overlays_from);
    let q = overlays_are_known();
    let found = partitions_found(rules, io);
    let whole = overlays_found(work_base, found);
    let list = Request::ListDir(rules.module_dir);
    partitions_found_only_reads(rules, io);
    lemma_weaken(io, found, module_queries(), q);
    match found.out {
        Outcome::Done(Some(partitions)) => {
            let steps = seq![must(Request::EnsureDir(work_base))];
            let prepared = perform(steps, found.io);
            lemma_simple_steps(steps, found.io, q);
            lemma_known_from(work_base, partitions, 0, prepared.io);
            assert(whole == overlays_ready(work_base, partitions, 0, prepared));
            lemma_then(found.io, prepared, whole, q);
        },
        Outcome::Done(None) => {
            lemma_end(found.io, Outcome::Done(()), q);
        },
        _ => {},
    }
    lemma_then(io, found, whole, q);
    let run = ask(io, list);
    if run.out is Done {
        if let ReplyView::Listing(l) = io.rest[0] {
            let s = Search { rules, modules: readable(l), next: 0, partitions: Seq::empty() };
            search_only_reads(s, run.io);
            lemma_proceeds(run.io, found, module_queries());
            assert(found.io.asked.take(run.io.asked.len() as int)[io.asked.len() as int] == list);
        }
    }
    if proceeds(found.io, whole, q) {
        lemma_proceeds(found.io, whole, q);
        assert(whole.io.asked.take(found.io.asked.len() as int)[io.asked.len() as int] == list);
    }
}

/// Mounting overlays begins with the question whether the kernel's list of file systems exists, and
/// goes on by reading it. If the word overlay stands anywhere in that text, whatever else stands
/// there, the modules are listed next, and the error that the kernel does not know overlays is not
/// what it ends with: it goes on as the modules' directories make it. In all other cases it ends
/// with that error and asks for nothing else.
pub proof fn overlays_are_mounted_if_the_kernel_knows_them(
    rules: RulesView,
    work_base: Text,
    io: Io,
)
    requires
        io.rest.len() >= 2,
    ensures
        ({
            let whole = overlays_mounted(rules, work_base, io);
            let list = "/proc/filesystems".spec_bytes();
            let n = io.asked.len() as int;
            let found = io.rest[0] == ReplyView::Flag(true);
            let named = found && (io.rest[1] matches ReplyView::Data(text) && exists|i: int|
                #[trigger] overlay_stands_at(text, i));
            &&& whole.io.asked.take(n) == io.asked
            &&& whole.io.asked.len() > n
            &&& whole.io.asked[n] == Request::<Text>::Exists(list)
            &&& found ==> {
                &&& whole.io.asked.len() > n + 1
                &&& whole.io.asked[n + 1] == Request::<Text>::ReadText(list)
            }
            &&& named ==> {
                &&& whole.io.asked.len() > n + 2
                &&& whole.io.asked[n + 2] == Request::<Text>::ListDir(rules.module_dir)
                &&& whole.out != Outcome::<()>::Fail(Error::NoOverlay)
                &&& whole == overlays_found(work_base, partitions_found(rules, kernel_asked(io)))
            }
            &&& !named ==> {
                &&& whole.io.asked.len() == n + (if found {
                    2int
                } else {
                    1
                })
                &&& whole.out == Outcome::<()>::Fail(Error::NoOverlay)
            }
        }),
{
    let whole = overlays_mounted(rules, work_base, io);
    let list = "/proc/filesystems".spec_bytes();
    let n = io.asked.len() as int;
    let first = ask(io, Request::Exists(list));
    assert(whole == overlays_listed(rules, work_base, io.rest[0], first.io));
    if io.rest[0] == ReplyView::Flag(true) {
        let second = ask(first.io, Request::ReadText(list));
        assert(first.io.rest[0] == io.rest[1]);
        assert(whole == overlays_known(rules, work_base, io.rest[1], second.io));
        lemma_known_found(rules, work_base, second.io);
        let more = overlays_found(work_base, partitions_found(rules, second.io));
        lemma_proceeds(second.io, more, overlays_are_known());
        let prefix = more.io.asked.take(second.io.asked.len() as int);
        assert(prefix[n] == more.io.asked[n]);
        assert(prefix[n + 1] == more.io.asked[n + 1]);
        assert(more.io.asked.take(n) =~= prefix.take(n));
        if let ReplyView::Data(text) = io.rest[1] {
            lemma_word_found(text);
        }
    }
    assert(whole.io.asked.take(n) =~= io.asked);
}

/// The word overlay stands in a text where its letters do.
proof fn lemma_word_found(text: Text)
    ensures
        occurs_in("overlay".spec_bytes(), text) <==> exists|i: int| #[trigger]
            overlay_stands_at(text, i),
{
    reveal_strlit("overlay");
    is_ascii_spec_bytes("overlay");
    let word = "overlay".spec_bytes();
    assert(word =~= seq![111u8, 118u8, 101u8, 114u8, 108u8, 97u8, 121u8]);
    if occurs_in(word, text) {
        let i = choose|i: int|
            0 <= i <= text.len() - word.len() && #[trigger] text.subrange(i, i + word.len())
                == word;
        let part = text.subrange(i, i + 7);
        assert(part[0] == word[0] && part[1] == word[1] && part[2] == word[2] && part[3] == word[3]
            && part[4] == word[4] && part[5] == word[5] && part[6] == word[6]);
        assert(overlay_stands_at(text, i));
    }
    if exists|i: int| #[trigger] overlay_stands_at(text, i) {
        let i = choose|i: int| #[trigger] overlay_stands_at(text, i);
        assert(text.subrange(i, i + word.len()) =~= word);
    }
}

} // verus!
