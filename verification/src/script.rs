//! A computation whose course is written down in advance: it waits through
//! a number of polls and after that yields a value, fails, or asks to be replaced
//! by the script that follows. Of such a chain everything is known, so a
//! dispatcher over it can be polled to its end.

use vstd::prelude::*;
use crate::dispatch::{polled_to, runs_to, settles_within, Becomer, Becoming};
use crate::laws::{drives, ends_in, lemma_polled_settled};
use crate::step::{Signal, Step};

verus! {

/// How a script ends, once its waiting is over.
pub enum End<T, E> {
    /// It yields this value.
    Value(T),
    /// It fails with this.
    Failure(E),
    /// It asks to be replaced by this script.
    Successor(Box<Script<T, E>>),
    /// It has ended already; from now on it reports `Pending`.
    Spent,
}

/// A computation that reports `Pending` at its first `waits` polls and ends
/// as `end` says at the next.
pub struct Script<T, E> {
    pub waits: usize,
    pub end: End<T, E>,
}

impl<T, E> Script<T, E> {
    /// How many replacements the chain asks for that this script heads.
    pub open spec fn hops(self) -> nat
        decreases self,
    {
        match self.end {
            End::Successor(next) => 1 + next.hops(),
            _ => 0,
        }
    }

    /// How many polls of scripts come before the chain's last report.
    pub open spec fn polls(self) -> nat
        decreases self,
    {
        match self.end {
            End::Successor(next) => self.waits as nat + 1 + next.polls(),
            _ => self.waits as nat,
        }
    }

    /// What the chain reports in the end; `Pending` where it is spent.
    pub open spec fn result(self) -> Step<T, E>
        decreases self,
    {
        match self.end {
            End::Value(v) => Step::Ready(v),
            End::Failure(e) => Step::Failed(e),
            End::Successor(next) => next.result(),
            End::Spent => Step::Pending,
        }
    }

    /// The script as one poll leaves it.
    pub open spec fn polled(self) -> Self {
        if self.waits > 0 {
            Script { waits: (self.waits - 1) as usize, end: self.end }
        } else {
            Script { waits: 0, end: End::Spent }
        }
    }

    /// What one poll of the script reports.
    pub open spec fn report(self) -> Step<T, Signal<Becomer<Self>, E>> {
        if self.waits > 0 {
            Step::Pending
        } else {
            match self.end {
                End::Value(v) => Step::Ready(v),
                End::Failure(e) => Step::Failed(Signal::GenuineFailure(e)),
                End::Successor(next) => Step::Failed(Signal::Continuation(Becomer(*next))),
                End::Spent => Step::Pending,
            }
        }
    }

    /// How many polls of the chain report `Pending` before its last report:
    /// the waits of all its scripts together.
    pub open spec fn waits_left(self) -> nat
        decreases self,
    {
        match self.end {
            End::Successor(next) => self.waits as nat + next.waits_left(),
            _ => self.waits as nat,
        }
    }

    /// How many replacements one poll of a dispatcher makes that holds this
    /// script: as many as there are scripts ahead that do not wait.
    pub open spec fn poll_hops(self) -> nat
        decreases self,
    {
        if self.waits > 0 {
            0
        } else {
            match self.end {
                End::Successor(next) => 1 + next.poll_hops(),
                _ => 0,
            }
        }
    }

    /// What a dispatcher that holds this script holds after one poll: the
    /// first script of the chain that waits or ends, as its poll leaves it.
    pub open spec fn poll_leaves(self) -> Self
        decreases self,
    {
        if self.waits > 0 {
            self.polled()
        } else {
            match self.end {
                End::Successor(next) => next.poll_leaves(),
                _ => self.polled(),
            }
        }
    }

    /// What one poll of a dispatcher reports that holds this script: what the
    /// first script of the chain reports that waits or ends.
    pub open spec fn poll_gives(self) -> Step<T, E>
        decreases self,
    {
        if self.waits > 0 {
            Step::Pending
        } else {
            match self.end {
                End::Value(v) => Step::Ready(v),
                End::Failure(e) => Step::Failed(e),
                End::Successor(next) => next.poll_gives(),
                End::Spent => Step::Pending,
            }
        }
    }

    /// A dispatcher over a script makes no more replacements than the chain
    /// has: it can always be polled.
    pub proof fn lemma_settles(self)
        ensures
            settles_within(self, self.hops()),
        decreases self,
    {
        if self.waits == 0 {
            if let End::Successor(next) = self.end {
                next.lemma_settles();
            }
        }
    }

    /// A chain of scripts that is not spent ends in its result, after as
    /// many replacements as it has successors.
    pub proof fn lemma_ends(self)
        requires
            !(self.result() is Pending),
        ensures
            ends_in(self, self.hops(), self.polls(), self.result()),
        decreases self.polls(),
    {
        if self.waits > 0 {
            self.polled().lemma_ends();
        } else if let End::Successor(next) = self.end {
            next.lemma_ends();
        }
    }

    /// One poll of a dispatcher over a script has one outcome: it makes
    /// `poll_hops` replacements, one poll for each script on the way and one
    /// for the script that it stops at, holds `poll_leaves` and reports
    /// `poll_gives`.
    pub proof fn lemma_run(self, j: nat, post: Self, r: Step<T, E>)
        ensures
            runs_to(self, j, post, r) <==> j == self.poll_hops() && post == self.poll_leaves() && r
                == self.poll_gives(),
        decreases self,
    {
        assert(self.polls_to(self.polled(), self.report()));
        if self.waits == 0 {
            if let End::Successor(next) = self.end {
                next.lemma_run((j - 1) as nat, post, r);
            }
        }
    }

    /// The same of the executable `poll`, for a chain of fewer than
    /// `u64::MAX` replacements.
    pub proof fn lemma_poll(self, post: Self, r: Step<T, E>)
        requires
            polled_to(self, post, r),
            self.hops() < u64::MAX,
        ensures
            post == self.poll_leaves(),
            r == self.poll_gives(),
            runs_to(self, self.poll_hops(), post, r),
    {
        self.lemma_settles();
        lemma_polled_settled(self, self.hops(), post, r);
        let j = choose|j: nat| j <= self.hops() && runs_to(self, j, post, r);
        self.lemma_run(j, post, r);
    }

    /// One poll of a dispatcher takes one wait off a chain that is not spent
    /// and changes nothing else of it; the chain's result comes out at the
    /// poll that finds no wait left, after all its replacements, and at no
    /// other.
    pub proof fn lemma_poll_counts(self)
        requires
            !(self.result() is Pending),
        ensures
            self.poll_hops() <= self.hops(),
            self.waits_left() == 0 ==> self.poll_gives() == self.result() && self.poll_hops()
                == self.hops(),
            self.waits_left() > 0 ==> self.poll_gives() is Pending
                && self.poll_leaves().waits_left() == self.waits_left() - 1
                && self.poll_leaves().result() == self.result() && self.poll_leaves().hops()
                + self.poll_hops() == self.hops(),
        decreases self,
    {
        if self.waits == 0 {
            if let End::Successor(next) = self.end {
                next.lemma_poll_counts();
            }
        }
    }

    /// Polled again and again, a dispatcher over a chain that is not spent
    /// reports `Pending` exactly as many times as the chain has waits, and
    /// after that the chain's result, with all its replacements made.
    pub proof fn lemma_driven(self, rs: Seq<Step<T, E>>, hops: nat, post: Self)
        requires
            !(self.result() is Pending),
            drives(self, rs, hops, post),
        ensures
            rs.len() <= self.waits_left() + 1,
            forall|i: int|
                0 <= i < rs.len() ==> rs[i] == if i < self.waits_left() {
                    Step::Pending
                } else {
                    self.result()
                },
            rs.len() == self.waits_left() + 1 ==> hops == self.hops(),
        decreases rs.len(),
    {
        if rs.len() > 0 {
            let (j, mid) = choose|j: nat, mid: Self|
                j <= hops && #[trigger] runs_to(self, j, mid, rs[0]) && (rs.len() > 1 ==> rs[0] is Pending)
                    && drives(mid, rs.drop_first(), (hops - j) as nat, post);
            self.lemma_run(j, mid, rs[0]);
            self.lemma_poll_counts();
            let rest = rs.drop_first();
            if rs.len() > 1 {
                mid.lemma_driven(rest, (hops - j) as nat, post);
                assert forall|i: int| 0 <= i < rs.len() implies rs[i] == if i < self.waits_left() {
                    Step::Pending
                } else {
                    self.result()
                } by {
                    if i > 0 {
                        assert(rs[i] == rest[i - 1]);
                    }
                }
            }
        }
    }
}

impl<T, E> Becoming for Script<T, E> {
    type Item = T;

    type Error = E;

    open spec fn polls_to(&self, after: Self, out: Step<T, Signal<Becomer<Self>, E>>) -> bool {
        after == self.polled() && out == self.report()
    }

    fn poll(&mut self) -> (out: Step<T, Signal<Becomer<Self>, E>>) {
        if self.waits > 0 {
            self.waits = self.waits - 1;
            return Step::Pending;
        }
        let mut end = End::Spent;
        std::mem::swap(&mut self.end, &mut end);
        match end {
            End::Value(v) => Step::Ready(v),
            End::Failure(e) => Step::Failed(Signal::GenuineFailure(e)),
            End::Successor(next) => Step::Failed(Signal::Continuation(Becomer(*next))),
            End::Spent => Step::Pending,
        }
    }
}

} // verus!
