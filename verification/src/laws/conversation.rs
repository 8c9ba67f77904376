//! What a computation may do to a conversation.

use vstd::prelude::*;

use crate::protocol::{ask, Error, Io, Outcome, ReplyView, Request, Run, Text};

verus! {

/// What a computation may ask for, and which errors it may end with.
pub struct Limits {
    pub allowed: spec_fn(Request<Text>) -> bool,
    pub excused: spec_fn(Error<Text>) -> bool,
}

/// No limits at all.
pub open spec fn no_limits() -> Limits {
    Limits { allowed: |r: Request<Text>| true, excused: |e: Error<Text>| true }
}

/// A computation carries a conversation on in good order. What was asked before stays as it was.
/// Each new request is allowed. Each reply is taken for one request, in order. The computation
/// waits only when no reply is left, and an error that it ends with is excused.
#[verifier::opaque]
pub open spec fn proceeds<T>(io: Io, run: Run<T>, limits: Limits) -> bool {
    let new = run.io.asked.len() - io.asked.len();
    &&& new >= 0
    &&& run.io.asked.take(io.asked.len() as int) == io.asked
    &&& forall|j: int|
        io.asked.len() <= j < run.io.asked.len() ==> (limits.allowed)(#[trigger] run.io.asked[j])
    &&& match run.out {
        Outcome::Waiting => new == io.rest.len() + 1 && run.io.rest.len() == 0,
        _ => new <= io.rest.len() && run.io.rest == io.rest.skip(new),
    }
    &&& run.out matches Outcome::Fail(e) ==> (limits.excused)(e)
}

/// Everything that was asked by a computation in good order was allowed.
pub proof fn lemma_proceeds<T>(io: Io, run: Run<T>, limits: Limits)
    requires
        proceeds(io, run, limits),
    ensures
        io.asked.len() <= run.io.asked.len(),
        run.io.asked.take(io.asked.len() as int) == io.asked,
        forall|j: int|
            io.asked.len() <= j < run.io.asked.len() ==> (limits.allowed)(
                #[trigger] run.io.asked[j],
            ),
        run.out is Waiting ==> {
            &&& run.io.rest.len() == 0
            &&& run.io.asked.len() == io.asked.len() + io.rest.len() + 1
        },
        !(run.out is Waiting) ==> {
            &&& run.io.asked.len() - io.asked.len() <= io.rest.len()
            &&& run.io.rest == io.rest.skip(run.io.asked.len() - io.asked.len())
        },
        run.out matches Outcome::Fail(e) ==> (limits.excused)(e),
{
    reveal(proceeds);
}

/// Asking an allowed question is in good order.
pub proof fn lemma_ask(io: Io, request: Request<Text>, limits: Limits)
    requires
        (limits.allowed)(request),
    ensures
        proceeds(io, ask(io, request), limits),
{
    reveal(proceeds);
    let run = ask(io, request);
    assert(run.io.asked.take(io.asked.len() as int) =~= io.asked);
    if io.rest.len() > 0 {
        assert(run.io.rest =~= io.rest.skip(1));
    }
}

/// Ending at once is in good order.
pub proof fn lemma_end<T>(io: Io, out: Outcome<T>, limits: Limits)
    requires
        !(out is Waiting),
        out matches Outcome::Fail(e) ==> (limits.excused)(e),
    ensures
        proceeds(io, Run { io, out }, limits),
{
    reveal(proceeds);
    assert(io.asked.take(io.asked.len() as int) =~= io.asked);
    assert(io.rest.skip(0) =~= io.rest);
}

/// One computation after another is in good order if both are. A computation that goes on only
/// after a success stops where the first one waits or fails.
pub proof fn lemma_then<A, B>(io: Io, first: Run<A>, second: Run<B>, limits: Limits)
    requires
        proceeds(io, first, limits),
        match first.out {
            Outcome::Waiting => second.io == first.io && second.out is Waiting,
            Outcome::Fail(e) => proceeds(first.io, second, limits) || (second.io == first.io
                && second.out == Outcome::<B>::Fail(e)),
            Outcome::Done(_) => proceeds(first.io, second, limits),
        },
    ensures
        proceeds(io, second, limits),
{
    reveal(proceeds);
    if proceeds(first.io, second, limits) && !(first.out is Waiting) {
        let n1 = first.io.asked.len() - io.asked.len();
        let n2 = second.io.asked.len() - first.io.asked.len();
        assert(second.io.asked.take(io.asked.len() as int) =~= second.io.asked.take(
            first.io.asked.len() as int,
        ).take(io.asked.len() as int));
        assert forall|j: int| io.asked.len() <= j < second.io.asked.len() implies (limits.allowed)(
            #[trigger] second.io.asked[j],
        ) by {
            if j < first.io.asked.len() {
                assert(second.io.asked[j] == second.io.asked.take(first.io.asked.len() as int)[j]);
                assert((limits.allowed)(first.io.asked[j]));
            }
        }
        if !(second.out is Waiting) {
            assert(second.io.rest =~= io.rest.skip(n1 + n2));
        }
    }
}

/// A computation in good order stays so when its result is put in another way.
pub proof fn lemma_recast<A, B>(io: Io, run: Run<A>, out: Outcome<B>, limits: Limits)
    requires
        proceeds(io, run, limits),
        run.out is Waiting <==> out is Waiting,
        out matches Outcome::Fail(e) ==> (limits.excused)(e),
    ensures
        proceeds(io, Run { io: run.io, out }, limits),
{
    reveal(proceeds);
}

/// What is in good order under strict limits is so under lenient ones.
pub proof fn lemma_weaken<T>(io: Io, run: Run<T>, strict: Limits, lenient: Limits)
    requires
        proceeds(io, run, strict),
        forall|r: Request<Text>| #[trigger] (strict.allowed)(r) ==> (lenient.allowed)(r),
        forall|e: Error<Text>| #[trigger] (strict.excused)(e) ==> (lenient.excused)(e),
    ensures
        proceeds(io, run, lenient),
{
    reveal(proceeds);
}

/// Every reply that is still to come is of some kind.
pub open spec fn all_replies(io: Io, good: spec_fn(ReplyView) -> bool) -> bool {
    forall|j: int| 0 <= j < io.rest.len() ==> good(#[trigger] io.rest[j])
}

/// What is known of all replies stays known of those that are left.
pub proof fn lemma_replies_stay<T>(
    io: Io,
    run: Run<T>,
    limits: Limits,
    good: spec_fn(ReplyView) -> bool,
)
    requires
        proceeds(io, run, limits),
        all_replies(io, good),
    ensures
        all_replies(run.io, good),
        run.io.rest.len() <= io.rest.len(),
{
    reveal(proceeds);
    assert forall|j: int| 0 <= j < run.io.rest.len() implies good(#[trigger] run.io.rest[j]) by {
        let n = run.io.asked.len() - io.asked.len();
        assert(run.io.rest[j] == io.rest[n + j]);
    }
}

} // verus!
