//! The dispatcher: it owns one computation at a time and, when that
//! computation asks to be replaced, goes on with the successor in a loop
//! rather than by a nested call.

use vstd::prelude::*;
use crate::step::{Signal, Step};

verus! {

/// A handle to a computation that a `Becomer` can run: one that, in place of
/// a plain failure, reports a `Signal` whose continuation is a dispatcher
/// over the same kind of handle.
pub trait Becoming: Sized {
    /// What the computation yields when it succeeds.
    type Item;

    /// What the computation fails with, once the signal is taken off.
    type Error;

    /// Whether one poll of `self` may report `out` and leave `after` behind.
    /// Unless an implementation says otherwise, a computation may report
    /// anything.
    open spec fn polls_to(
        &self,
        after: Self,
        out: Step<Self::Item, Signal<Becomer<Self>, Self::Error>>,
    ) -> bool {
        true
    }

    /// Advances the computation by one step.
    fn poll(&mut self) -> (out: Step<Self::Item, Signal<Becomer<Self>, Self::Error>>)
        ensures
            old(self).polls_to(*final(self), out),
    ;
}

/// A dispatcher. It holds the computation that is current; a caller sees
/// `Pending`, a value or a bare failure, never a continuation.
pub struct Becomer<B: Becoming>(pub B);

/// What the caller of a dispatcher sees of the report `out`, which is no
/// continuation.
pub open spec fn surfaced<T, N, E>(out: Step<T, Signal<N, E>>) -> Step<T, E>
    recommends
        !(out matches Step::Failed(Signal::Continuation(_))),
{
    match out {
        Step::Ready(v) => Step::Ready(v),
        Step::Failed(Signal::GenuineFailure(e)) => Step::Failed(e),
        _ => Step::Pending,
    }
}

/// Whether a dispatcher that holds `pre` may come to hold `post` by exactly
/// `n` replacements, each asked for by the computation that was current.
pub open spec fn hops_to<B: Becoming>(pre: B, n: nat, post: B) -> bool
    decreases n,
{
    if n == 0 {
        post == pre
    } else {
        exists|after: B, next: Becomer<B>|
            #[trigger] pre.polls_to(after, Step::Failed(Signal::Continuation(next)))
                && hops_to(next.0, (n - 1) as nat, post)
    }
}

/// Whether one poll of a dispatcher that holds `pre` may make exactly `n`
/// replacements, then report `r` and hold `post`.
pub open spec fn runs_to<B: Becoming>(pre: B, n: nat, post: B, r: Step<B::Item, B::Error>) -> bool
    decreases n,
{
    exists|after: B, out: Step<B::Item, Signal<Becomer<B>, B::Error>>|
        #[trigger] pre.polls_to(after, out) && match out {
            Step::Failed(Signal::Continuation(next)) => n > 0 && runs_to(
                next.0,
                (n - 1) as nat,
                post,
                r,
            ),
            _ => n == 0 && post == after && r == surfaced(out),
        }
}

/// Whether no run from `b` makes more than `n` replacements in one poll of
/// the dispatcher.
pub open spec fn settles_within<B: Becoming>(b: B, n: nat) -> bool
    decreases n,
{
    forall|after: B, out: Step<B::Item, Signal<Becomer<B>, B::Error>>|
        #[trigger] b.polls_to(after, out) ==> (out matches Step::Failed(
            Signal::Continuation(next),
        ) ==> n > 0 && settles_within(next.0, (n - 1) as nat))
}

/// What one poll of a dispatcher that holds `pre` may come to: a run of
/// fewer than `u64::MAX` replacements that ends in the report `r`, or, at
/// that limit, `Pending` with the successor that came last in place.
pub open spec fn polled_to<B: Becoming>(pre: B, post: B, r: Step<B::Item, B::Error>) -> bool {
    (exists|n: nat| n < u64::MAX && runs_to(pre, n, post, r)) || (r is Pending && hops_to(
        pre,
        u64::MAX as nat,
        post,
    ))
}

/// A chain that settles within `n` replacements cannot be followed for more
/// than `n`.
pub proof fn lemma_hops_settle<B: Becoming>(b: B, n: nat, k: nat, post: B)
    requires
        settles_within(b, n),
        hops_to(b, k, post),
    ensures
        k <= n,
    decreases k,
{
    if k > 0 {
        let (after, next) = choose|after: B, next: Becomer<B>|
            #[trigger] b.polls_to(after, Step::Failed(Signal::Continuation(next))) && hops_to(
                next.0,
                (k - 1) as nat,
                post,
            );
        lemma_hops_settle(next.0, (n - 1) as nat, (k - 1) as nat, post);
    }
}

impl<B: Becoming> Becomer<B> {
    /// Takes in what a poll of the current computation has reported. A
    /// continuation replaces the current computation and nothing is handed
    /// out; any other report is handed out, a failure without its wrapping,
    /// and the current computation stays.
    pub fn absorb(&mut self, out: Step<B::Item, Signal<Becomer<B>, B::Error>>) -> (r: Option<
        Step<B::Item, B::Error>,
    >)
        ensures
            match out {
                Step::Failed(Signal::Continuation(next)) => r is None && *final(self) == next,
                _ => r == Some(surfaced(out)) && *final(self) == *old(self),
            },
    {
        match out {
            Step::Pending => Some(Step::Pending),
            Step::Ready(v) => Some(Step::Ready(v)),
            Step::Failed(Signal::GenuineFailure(e)) => Some(Step::Failed(e)),
            Step::Failed(Signal::Continuation(next)) => {
                *self = next;
                None
            },
        }
    }

    /// Polls the current computation, and its successors for as long as a
    /// continuation comes back, until one of them reports something else.
    /// The loop holds one computation at a time, however long the chain.
    ///
    /// The loop counts its replacements in 64 bits, so that it is sure to
    /// end: should `u64::MAX` polls in a row each ask for a replacement, the
    /// caller gets `Pending` and the dispatcher holds the successor that came
    /// last. A chain that is known to settle earlier never comes to that.
    pub fn poll(&mut self) -> (r: Step<B::Item, B::Error>)
        ensures
            polled_to(old(self).0, final(self).0, r),
            (exists|n: nat| n < u64::MAX && settles_within(old(self).0, n)) ==> exists|n: nat|
                n < u64::MAX && runs_to(old(self).0, n, final(self).0, r),
    {
        match self.poll_within(u64::MAX) {
            Some(r) => r,
            None => Step::Pending,
        }
    }

    /// Polls as `poll` does, but no more than `polls` computations: `None`
    /// says that each of them asked for a replacement, and the dispatcher
    /// then holds the successor that came last.
    pub fn poll_within(&mut self, polls: u64) -> (r: Option<Step<B::Item, B::Error>>)
        ensures
            match r {
                Some(s) => exists|n: nat| n < polls && runs_to(old(self).0, n, final(self).0, s),
                None => hops_to(old(self).0, polls as nat, final(self).0),
            },
            (exists|n: nat| n < polls && settles_within(old(self).0, n)) ==> r is Some,
    {
        let mut made: u64 = 0;
        while made < polls
            invariant
                made <= polls,
                forall|m: nat, post: B, r: Step<B::Item, B::Error>|
                    runs_to(self.0, m, post, r) ==> runs_to(old(self).0, (m + made) as nat, post, r),
                forall|m: nat, post: B|
                    hops_to(self.0, m, post) ==> hops_to(old(self).0, (m + made) as nat, post),
            decreases polls - made,
        {
            let ghost before = self.0;
            let out = self.0.poll();
            let ghost after = self.0;
            match self.absorb(out) {
                Some(r) => {
                    assert(runs_to(before, 0, after, r));
                    return Some(r);
                },
                None => {
                    proof {
                        assert(before.polls_to(after, out));
                        assert forall|m: nat, post: B, r: Step<B::Item, B::Error>|
                            runs_to(self.0, m, post, r) implies runs_to(
                            old(self).0,
                            (m + made + 1) as nat,
                            post,
                            r,
                        ) by {
                            assert(runs_to(before, m + 1, post, r));
                        }
                        assert forall|m: nat, post: B| hops_to(self.0, m, post) implies hops_to(
                            old(self).0,
                            (m + made + 1) as nat,
                            post,
                        ) by {
                            assert(hops_to(before, m + 1, post));
                        }
                    }
                    made = made + 1;
                },
            }
        }
        proof {
            assert(hops_to(self.0, 0, self.0));
            if exists|n: nat| n < polls && settles_within(old(self).0, n) {
                let n = choose|n: nat| n < polls && settles_within(old(self).0, n);
                lemma_hops_settle(old(self).0, n, polls as nat, self.0);
            }
        }
        None
    }
}

} // verus!
