//! What holds of every dispatcher, proved from the meaning of `poll`.

use vstd::prelude::*;
use crate::dispatch::{
    hops_to, lemma_hops_settle, polled_to, runs_to, settles_within, surfaced, Becomer, Becoming,
};
use crate::step::{Signal, Step};

verus! {

/// Whether `b` heads a chain that ends in the result `t`: whatever its
/// computations report, exactly `n` replacements lead to a computation that
/// reports `t`, and no more than `m` polls of computations come before that
/// report.
pub open spec fn ends_in<B: Becoming>(b: B, n: nat, m: nat, t: Step<B::Item, B::Error>) -> bool
    decreases m,
{
    forall|after: B, out: Step<B::Item, Signal<Becomer<B>, B::Error>>|
        #[trigger] b.polls_to(after, out) ==> match out {
            Step::Pending => m > 0 && ends_in(after, n, (m - 1) as nat, t),
            Step::Failed(Signal::Continuation(next)) => n > 0 && m > 0 && ends_in(
                next.0,
                (n - 1) as nat,
                (m - 1) as nat,
                t,
            ),
            _ => n == 0 && surfaced(out) == t,
        }
}

/// Whether the results `rs` may be what successive polls of a dispatcher
/// report that holds `b` at first and `post` at last, each poll but the
/// first following a `Pending`, with `hops` replacements made in all.
pub open spec fn drives<B: Becoming>(
    b: B,
    rs: Seq<Step<B::Item, B::Error>>,
    hops: nat,
    post: B,
) -> bool
    decreases rs.len(),
{
    if rs.len() == 0 {
        hops == 0 && post == b
    } else {
        exists|j: nat, mid: B|
            j <= hops && #[trigger] runs_to(b, j, mid, rs[0]) && (rs.len() > 1 ==> rs[0] is Pending)
                && drives(mid, rs.drop_first(), (hops - j) as nat, post)
    }
}

/// A computation that can only report a value makes the dispatcher hand out
/// that value at once: the poll makes no replacement, and the dispatcher
/// holds what the computation left behind.
pub proof fn lemma_ready_is_handed_out<B: Becoming>(
    b: B,
    j: nat,
    post: B,
    r: Step<B::Item, B::Error>,
)
    requires
        forall|after: B, out: Step<B::Item, Signal<Becomer<B>, B::Error>>|
            #[trigger] b.polls_to(after, out) ==> out is Ready,
        runs_to(b, j, post, r),
    ensures
        j == 0,
        r is Ready,
        b.polls_to(post, Step::Ready(r->Ready_0)),
{
}

/// A computation that can only report `Pending` makes the dispatcher report
/// `Pending`: the poll makes no replacement, and the dispatcher holds that
/// same computation, as its own poll left it.
pub proof fn lemma_pending_is_handed_out<B: Becoming>(
    b: B,
    j: nat,
    post: B,
    r: Step<B::Item, B::Error>,
)
    requires
        forall|after: B, out: Step<B::Item, Signal<Becomer<B>, B::Error>>|
            #[trigger] b.polls_to(after, out) ==> out is Pending,
        runs_to(b, j, post, r),
    ensures
        j == 0,
        r is Pending,
        b.polls_to(post, Step::Pending),
{
}

/// Whatever a computation reports that is no continuation, the dispatcher
/// may hand out with no replacement made, a failure without its wrapping;
/// and a poll that makes no replacement hands out nothing else.
pub proof fn lemma_report_is_handed_out<B: Becoming>(b: B, post: B, r: Step<B::Item, B::Error>)
    ensures
        runs_to(b, 0, post, r) <==> exists|out: Step<B::Item, Signal<Becomer<B>, B::Error>>|
            #[trigger] b.polls_to(post, out) && !(out matches Step::Failed(
                Signal::Continuation(_),
            )) && r == surfaced(out),
{
    if runs_to(b, 0, post, r) {
        let (after, out) = choose|after: B, out: Step<B::Item, Signal<Becomer<B>, B::Error>>|
            #[trigger] b.polls_to(after, out) && match out {
                Step::Failed(Signal::Continuation(next)) => false,
                _ => post == after && r == surfaced(out),
            };
        assert(b.polls_to(post, out));
    }
}

/// A chain that ends can be polled: no poll of the dispatcher makes more
/// replacements than the chain has.
pub proof fn lemma_chain_settles<B: Becoming>(b: B, n: nat, m: nat, t: Step<B::Item, B::Error>)
    requires
        ends_in(b, n, m, t),
    ensures
        settles_within(b, n),
    decreases m,
{
    assert forall|after: B, out: Step<B::Item, Signal<Becomer<B>, B::Error>>|
        #[trigger] b.polls_to(after, out) implies (out matches Step::Failed(
        Signal::Continuation(next),
    ) ==> n > 0 && settles_within(next.0, (n - 1) as nat)) by {
        if let Step::Failed(Signal::Continuation(next)) = out {
            lemma_chain_settles(next.0, (n - 1) as nat, (m - 1) as nat, t);
        }
    }
}

/// Replacements add up: what a dispatcher may report from `mid`, having come
/// there from `b` by `k` replacements, it may report from `b` with those `k`
/// replacements made first.
pub proof fn lemma_hops_then_run<B: Becoming>(
    b: B,
    k: nat,
    mid: B,
    n: nat,
    post: B,
    r: Step<B::Item, B::Error>,
)
    requires
        hops_to(b, k, mid),
        runs_to(mid, n, post, r),
    ensures
        runs_to(b, k + n, post, r),
    decreases k,
{
    if k > 0 {
        let (after, next) = choose|after: B, next: Becomer<B>|
            #[trigger] b.polls_to(after, Step::Failed(Signal::Continuation(next))) && hops_to(
                next.0,
                (k - 1) as nat,
                mid,
            );
        lemma_hops_then_run(next.0, (k - 1) as nat, mid, n, post, r);
        assert(runs_to(next.0, (k + n - 1) as nat, post, r));
    }
}

/// A run of `n` replacements is `n` replacements followed by a poll that
/// makes none: the report comes from the computation that the replacements
/// lead to.
pub proof fn lemma_run_splits<B: Becoming>(b: B, n: nat, post: B, r: Step<B::Item, B::Error>)
    ensures
        runs_to(b, n, post, r) <==> exists|mid: B| #[trigger]
            hops_to(b, n, mid) && runs_to(mid, 0, post, r),
    decreases n,
{
    if runs_to(b, n, post, r) {
        if n == 0 {
            assert(hops_to(b, 0, b));
        } else {
            let (after, out) = choose|after: B, out: Step<B::Item, Signal<Becomer<B>, B::Error>>|
                #[trigger] b.polls_to(after, out) && match out {
                    Step::Failed(Signal::Continuation(next)) => runs_to(
                        next.0,
                        (n - 1) as nat,
                        post,
                        r,
                    ),
                    _ => false,
                };
            let next = out->Failed_0->Continuation_0;
            lemma_run_splits(next.0, (n - 1) as nat, post, r);
            let mid = choose|mid: B| #[trigger]
                hops_to(next.0, (n - 1) as nat, mid) && runs_to(mid, 0, post, r);
            assert(hops_to(b, n, mid));
        }
    }
    if exists|mid: B| #[trigger] hops_to(b, n, mid) && runs_to(mid, 0, post, r) {
        let mid = choose|mid: B| #[trigger] hops_to(b, n, mid) && runs_to(mid, 0, post, r);
        lemma_hops_then_run(b, n, mid, 0, post, r);
    }
}

/// When a poll of the dispatcher reports `Pending` after `n` replacements,
/// the computation that those replacements lead to has reported it, and the
/// dispatcher holds that same computation, as its own poll left it.
pub proof fn lemma_pending_keeps_computation<B: Becoming>(b: B, n: nat, post: B)
    requires
        runs_to(b, n, post, Step::Pending),
    ensures
        exists|mid: B| #[trigger] hops_to(b, n, mid) && mid.polls_to(post, Step::Pending),
{
    lemma_run_splits(b, n, post, Step::Pending);
    let mid = choose|mid: B| #[trigger]
        hops_to(b, n, mid) && runs_to(mid, 0, post, Step::Pending);
    let (after, out) = choose|after: B, out: Step<B::Item, Signal<Becomer<B>, B::Error>>|
        #[trigger] mid.polls_to(after, out) && match out {
            Step::Failed(Signal::Continuation(next)) => false,
            _ => post == after && Step::<B::Item, B::Error>::Pending == surfaced(out),
        };
    assert(out is Pending);
    assert(mid.polls_to(post, Step::Pending));
}

/// One poll of the dispatcher over a chain that settles within fewer than
/// `u64::MAX` replacements is a run: what it reports, a computation of the
/// chain has reported, `Pending` too.
pub proof fn lemma_polled_settled<B: Becoming>(
    b: B,
    n: nat,
    post: B,
    r: Step<B::Item, B::Error>,
)
    requires
        polled_to(b, post, r),
        settles_within(b, n),
        n < u64::MAX,
    ensures
        exists|j: nat| j <= n && runs_to(b, j, post, r),
{
    if exists|j: nat| j < u64::MAX && runs_to(b, j, post, r) {
        let j = choose|j: nat| j < u64::MAX && runs_to(b, j, post, r);
        lemma_run_splits(b, j, post, r);
        let mid = choose|mid: B| #[trigger] hops_to(b, j, mid) && runs_to(mid, 0, post, r);
        lemma_hops_settle(b, n, j, mid);
    } else {
        lemma_hops_settle(b, n, u64::MAX as nat, post);
    }
}

/// A chain that ends in `t` still does so after `k` of its replacements:
/// there are that many, and the dispatcher then holds the head of what is
/// left of the chain.
pub proof fn lemma_chain_followed<B: Becoming>(
    b: B,
    n: nat,
    m: nat,
    t: Step<B::Item, B::Error>,
    k: nat,
    post: B,
)
    requires
        ends_in(b, n, m, t),
        hops_to(b, k, post),
    ensures
        k <= n,
        k <= m,
        ends_in(post, (n - k) as nat, (m - k) as nat, t),
    decreases k,
{
    if k > 0 {
        let (after, next) = choose|after: B, next: Becomer<B>|
            #[trigger] b.polls_to(after, Step::Failed(Signal::Continuation(next))) && hops_to(
                next.0,
                (k - 1) as nat,
                post,
            );
        lemma_chain_followed(next.0, (n - 1) as nat, (m - 1) as nat, t, (k - 1) as nat, post);
    }
}

/// One poll of a dispatcher at the head of a chain that ends in `t` reports
/// `t` or `Pending`, never anything else. It reports `t` only after all `n`
/// replacements of the chain. When it reports `Pending`, the dispatcher
/// holds the head of what is left of the chain.
pub proof fn lemma_chain_polled<B: Becoming>(
    b: B,
    n: nat,
    m: nat,
    t: Step<B::Item, B::Error>,
    j: nat,
    post: B,
    r: Step<B::Item, B::Error>,
)
    requires
        ends_in(b, n, m, t),
        !(t is Pending),
        runs_to(b, j, post, r),
    ensures
        j <= n,
        r is Pending || r == t,
        r == t ==> j == n,
        r is Pending ==> j < m && ends_in(post, (n - j) as nat, (m - j - 1) as nat, t),
    decreases j,
{
    let (after, out) = choose|after: B, out: Step<B::Item, Signal<Becomer<B>, B::Error>>|
        #[trigger] b.polls_to(after, out) && match out {
            Step::Failed(Signal::Continuation(next)) => j > 0 && runs_to(
                next.0,
                (j - 1) as nat,
                post,
                r,
            ),
            _ => j == 0 && post == after && r == surfaced(out),
        };
    if let Step::Failed(Signal::Continuation(next)) = out {
        lemma_chain_polled(next.0, (n - 1) as nat, (m - 1) as nat, t, (j - 1) as nat, post, r);
    }
}

/// Polled again and again, a dispatcher at the head of a chain that ends in
/// `t` reports `Pending` until it reports `t`: no failure and no value but
/// `t` ever comes out, `t` comes out once the `n` replacements of the chain
/// are made and no later than at the poll after `m` reports of `Pending`,
/// and no computation beyond the one that reports `t` is put in place.
pub proof fn lemma_chain_driven<B: Becoming>(
    b: B,
    n: nat,
    m: nat,
    t: Step<B::Item, B::Error>,
    rs: Seq<Step<B::Item, B::Error>>,
    hops: nat,
    post: B,
)
    requires
        ends_in(b, n, m, t),
        !(t is Pending),
        drives(b, rs, hops, post),
    ensures
        hops <= n,
        rs.len() <= m + 1,
        forall|i: int| 0 <= i < rs.len() - 1 ==> rs[i] is Pending,
        rs.len() > 0 ==> rs.last() is Pending || rs.last() == t,
        rs.len() > 0 && rs.last() == t ==> hops == n,
        rs.len() == m + 1 ==> rs.last() == t,
    decreases rs.len(),
{
    if rs.len() > 0 {
        let (j, mid) = choose|j: nat, mid: B|
            j <= hops && #[trigger] runs_to(b, j, mid, rs[0]) && (rs.len() > 1 ==> rs[0] is Pending)
                && drives(mid, rs.drop_first(), (hops - j) as nat, post);
        lemma_chain_polled(b, n, m, t, j, mid, rs[0]);
        if rs.len() > 1 {
            let rest = rs.drop_first();
            lemma_chain_driven(
                mid,
                (n - j) as nat,
                (m - j - 1) as nat,
                t,
                rest,
                (hops - j) as nat,
                post,
            );
            assert(rest.last() == rs.last());
            assert forall|i: int| 0 <= i < rs.len() - 1 implies rs[i] is Pending by {
                if i > 0 {
                    assert(rs[i] == rest[i - 1]);
                }
            }
        }
    }
}

/// One poll of a dispatcher at the head of a chain of fewer than `u64::MAX`
/// replacements that ends in `t` reports `t` or `Pending`, never anything
/// else. A `Pending` is one that a computation of the chain has reported,
/// and the dispatcher then holds the head of what is left of the chain.
pub proof fn lemma_chain_poll<B: Becoming>(
    b: B,
    n: nat,
    m: nat,
    t: Step<B::Item, B::Error>,
    post: B,
    r: Step<B::Item, B::Error>,
)
    requires
        ends_in(b, n, m, t),
        !(t is Pending),
        n < u64::MAX,
        polled_to(b, post, r),
    ensures
        r is Pending || r == t,
        exists|j: nat|
            j <= n && #[trigger] runs_to(b, j, post, r) && (r == t ==> j == n) && (r is Pending
                ==> j < m && ends_in(post, (n - j) as nat, (m - j - 1) as nat, t)),
{
    lemma_chain_settles(b, n, m, t);
    lemma_polled_settled(b, n, post, r);
    let j = choose|j: nat| j <= n && runs_to(b, j, post, r);
    lemma_chain_polled(b, n, m, t, j, post, r);
}

} // verus!
