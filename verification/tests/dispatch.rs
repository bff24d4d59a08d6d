use std::cell::Cell;
use std::rc::Rc;
use std::sync::atomic::{AtomicUsize, Ordering};
use std::sync::Arc;

use futures_become::dispatch::{Becomer, Becoming};
use futures_become::script::{End, Script};
use futures_become::step::{Signal, Step};

/// A dispatcher at the head of a chain of `n` replacements, each stage of
/// which waits through `waits` polls, and which ends as `end` says.
fn chain(n: u32, waits: usize, end: End<u64, &'static str>) -> Becomer<Script<u64, &'static str>> {
    let mut script = Script { waits, end };
    for _ in 0..n {
        script = Script { waits, end: End::Successor(Box::new(script)) };
    }
    Becomer(script)
}

/// A stage that counts, in `polls`, every poll of any stage of its chain.
/// It asks for `left` replacements and then ends as `last` says.
struct Counted {
    left: u32,
    last: Option<Result<u64, &'static str>>,
    polls: Rc<Cell<u64>>,
}

impl Becoming for Counted {
    type Item = u64;
    type Error = &'static str;

    fn poll(&mut self) -> Step<u64, Signal<Becomer<Counted>, &'static str>> {
        self.polls.set(self.polls.get() + 1);
        if self.left > 0 {
            return Step::Failed(Signal::Continuation(Becomer(Counted {
                left: self.left - 1,
                last: self.last.take(),
                polls: self.polls.clone(),
            })));
        }
        match self.last.take() {
            Some(Ok(v)) => Step::Ready(v),
            Some(Err(e)) => Step::Failed(Signal::GenuineFailure(e)),
            None => Step::Pending,
        }
    }
}

fn counted(left: u32, last: Result<u64, &'static str>) -> (Becomer<Counted>, Rc<Cell<u64>>) {
    let polls = Rc::new(Cell::new(0));
    (Becomer(Counted { left, last: Some(last), polls: polls.clone() }), polls)
}

#[test]
fn absorb_hands_out_pending_and_keeps_the_computation() {
    let mut d = chain(3, 0, End::Value(1));
    assert_eq!(d.absorb(Step::Pending), Some(Step::Pending));
    assert!(matches!(d.0.end, End::Successor(_)));
}

#[test]
fn absorb_hands_out_a_value_and_keeps_the_computation() {
    let mut d = chain(3, 0, End::Value(1));
    assert_eq!(d.absorb(Step::Ready(9)), Some(Step::Ready(9)));
    assert!(matches!(d.0.end, End::Successor(_)));
}

#[test]
fn absorb_unwraps_a_genuine_failure() {
    let mut d = chain(3, 0, End::Value(1));
    assert_eq!(d.absorb(Step::Failed(Signal::GenuineFailure("no"))), Some(Step::Failed("no")));
    assert!(matches!(d.0.end, End::Successor(_)));
}

#[test]
fn absorb_takes_the_successor_and_hands_out_nothing() {
    let mut d = chain(3, 0, End::Value(1));
    let next = chain(0, 4, End::Value(77));
    assert_eq!(d.absorb(Step::Failed(Signal::Continuation(next))), None);
    assert_eq!(d.0.waits, 4);
    assert!(matches!(d.0.end, End::Value(77)));
}

#[test]
fn chain_of_no_replacement_yields_its_value() {
    let mut d = chain(0, 0, End::Value(42));
    assert_eq!(d.poll(), Step::Ready(42));
}

#[test]
fn chain_of_one_replacement_yields_the_last_value() {
    let mut d = chain(1, 0, End::Value(42));
    assert_eq!(d.poll(), Step::Ready(42));
}

#[test]
fn chain_of_five_replacements_yields_the_last_value() {
    let mut d = chain(5, 0, End::Value(7));
    assert_eq!(d.poll(), Step::Ready(7));
    assert!(matches!(d.0.end, End::Spent));
}

#[test]
fn chain_of_a_million_replacements_yields_the_last_value_in_one_poll() {
    let mut d = chain(1_000_000, 0, End::Value(3));
    assert_eq!(d.poll(), Step::Ready(3));
}

#[test]
fn chain_that_waits_yields_the_last_value_after_its_waits() {
    // Three stages, each of which waits twice: six reports of `Pending`.
    let mut d = chain(2, 2, End::Value(10));
    for _ in 0..6 {
        assert_eq!(d.poll(), Step::Pending);
    }
    assert_eq!(d.poll(), Step::Ready(10));
}

#[test]
fn failure_at_the_first_stage_comes_out_bare() {
    let mut d = chain(0, 0, End::Failure("broken"));
    assert_eq!(d.poll(), Step::Failed("broken"));
}

#[test]
fn failure_at_a_later_stage_comes_out_bare() {
    let mut d = chain(3, 0, End::Failure("stage 3"));
    assert_eq!(d.poll(), Step::Failed("stage 3"));
    assert!(matches!(d.0.end, End::Spent));
}

#[test]
fn failure_after_a_million_replacements_comes_out_bare() {
    let mut d = chain(1_000_000, 0, End::Failure("late"));
    assert_eq!(d.poll(), Step::Failed("late"));
}

#[test]
fn failure_ends_the_chain_and_no_later_stage_is_polled() {
    // Stages 0, 1 and 2 ask for a replacement; stage 3 fails.
    let (mut d, polls) = counted(3, Err("stage 3"));
    assert_eq!(d.poll_within(u64::MAX), Some(Step::Failed("stage 3")));
    assert_eq!(polls.get(), 4);
    assert_eq!(d.0.left, 0);
}

#[test]
fn every_stage_is_polled_once_on_the_way_to_the_value() {
    let (mut d, polls) = counted(1_000_000, Ok(9));
    assert_eq!(d.poll_within(u64::MAX), Some(Step::Ready(9)));
    assert_eq!(polls.get(), 1_000_001);
}

#[test]
fn ready_computation_is_handed_out_without_replacement() {
    let mut d = Becomer(Script::<u64, &'static str> { waits: 0, end: End::Value(5) });
    assert_eq!(d.poll(), Step::Ready(5));
    assert_eq!(d.0.waits, 0);
    assert!(matches!(d.0.end, End::Spent));
    let (mut c, polls) = counted(0, Ok(5));
    assert_eq!(c.poll_within(1), Some(Step::Ready(5)));
    assert_eq!(polls.get(), 1);
}

#[test]
fn pending_is_handed_out_and_the_computation_stays() {
    let mut d = chain(1, 2, End::Value(8));
    assert_eq!(d.poll(), Step::Pending);
    assert_eq!(d.0.waits, 1);
    assert!(matches!(d.0.end, End::Successor(_)));
    assert_eq!(d.poll(), Step::Pending);
    assert_eq!(d.0.waits, 0);
    assert!(matches!(d.0.end, End::Successor(_)));
    // The third poll gets the continuation, and the successor waits.
    assert_eq!(d.poll(), Step::Pending);
    assert_eq!(d.0.waits, 1);
    assert!(matches!(d.0.end, End::Value(8)));
}

#[test]
fn spent_script_reports_pending() {
    let mut d = chain(0, 0, End::Value(1));
    assert_eq!(d.poll(), Step::Ready(1));
    assert_eq!(d.poll(), Step::Pending);
    assert_eq!(d.poll(), Step::Pending);
}

#[test]
fn script_reports_what_it_holds() {
    let mut s = Script::<u64, &'static str> { waits: 1, end: End::Failure("f") };
    assert!(matches!(s.poll(), Step::Pending));
    assert_eq!(s.waits, 0);
    assert!(matches!(s.poll(), Step::Failed(Signal::GenuineFailure("f"))));
    assert!(matches!(s.end, End::Spent));
    let next = Script::<u64, &'static str> { waits: 7, end: End::Value(2) };
    let mut t = Script { waits: 0, end: End::Successor(Box::new(next)) };
    match t.poll() {
        Step::Failed(Signal::Continuation(d)) => {
            assert_eq!(d.0.waits, 7);
            assert!(matches!(d.0.end, End::Value(2)));
        }
        _ => unreachable!(),
    }
    assert!(matches!(t.end, End::Spent));
}

#[test]
fn poll_within_no_poll_does_nothing() {
    let (mut d, polls) = counted(2, Ok(1));
    assert_eq!(d.poll_within(0), None);
    assert_eq!(polls.get(), 0);
    assert_eq!(d.0.left, 2);
}

#[test]
fn poll_within_gives_up_at_the_successor_that_came_last() {
    let (mut d, polls) = counted(5, Ok(11));
    assert_eq!(d.poll_within(2), None);
    assert_eq!(polls.get(), 2);
    // Two of the five replacements are made: three are left.
    assert_eq!(d.0.left, 3);
    assert_eq!(d.poll_within(3), None);
    assert_eq!(polls.get(), 5);
    assert_eq!(d.0.left, 0);
    assert_eq!(d.poll_within(1), Some(Step::Ready(11)));
    assert_eq!(polls.get(), 6);
}

#[test]
fn poll_within_reaches_the_end_with_just_enough_polls() {
    let (mut d, polls) = counted(5, Ok(11));
    assert_eq!(d.poll_within(6), Some(Step::Ready(11)));
    assert_eq!(polls.get(), 6);
}

#[test]
fn poll_within_hands_out_a_failure_bare() {
    let mut d = chain(2, 0, End::Failure("bad"));
    assert_eq!(d.poll_within(u64::MAX), Some(Step::Failed("bad")));
}

#[test]
fn poll_within_hands_out_pending() {
    let mut d = chain(2, 1, End::Value(4));
    assert_eq!(d.poll_within(10), Some(Step::Pending));
    assert_eq!(d.0.waits, 0);
}

/// A chain of scripts with the waits of `waits`, first stage first, that
/// ends as `end` says.
fn waiting(waits: &[usize], end: End<u64, &'static str>) -> Becomer<Script<u64, &'static str>> {
    let mut stages = waits.iter().rev();
    let mut script = Script { waits: *stages.next().unwrap_or(&0), end };
    for w in stages {
        script = Script { waits: *w, end: End::Successor(Box::new(script)) };
    }
    Becomer(script)
}

#[test]
fn chain_reports_pending_once_for_each_wait_and_then_its_value() {
    // Waits of 2, 0, 3 and 1: six reports of `Pending`, then the value.
    let mut d = waiting(&[2, 0, 3, 1], End::Value(99));
    for _ in 0..6 {
        assert_eq!(d.poll(), Step::Pending);
    }
    assert_eq!(d.poll(), Step::Ready(99));
}

#[test]
fn chain_reports_pending_once_for_each_wait_and_then_its_failure() {
    let mut d = waiting(&[0, 1, 0, 0, 2], End::Failure("end"));
    for _ in 0..3 {
        assert_eq!(d.poll(), Step::Pending);
    }
    assert_eq!(d.poll(), Step::Failed("end"));
}

#[test]
fn chain_without_waits_reports_its_value_at_the_first_poll() {
    let mut d = waiting(&[0, 0, 0, 0], End::Value(4));
    assert_eq!(d.poll(), Step::Ready(4));
}

#[test]
fn pending_of_a_successor_leaves_that_successor_in_place() {
    // The first stage is replaced at once; the second waits twice.
    let mut d = waiting(&[0, 2, 0], End::Value(6));
    assert_eq!(d.poll(), Step::Pending);
    assert_eq!(d.0.waits, 1);
    assert!(matches!(d.0.end, End::Successor(_)));
    // The next poll begins with that same stage, as its poll left it.
    assert_eq!(d.poll(), Step::Pending);
    assert_eq!(d.0.waits, 0);
    assert!(matches!(d.0.end, End::Successor(_)));
    assert_eq!(d.poll(), Step::Ready(6));
}

#[test]
fn one_poll_polls_each_stage_once_in_the_order_of_the_chain() {
    let (mut d, polls) = counted(7, Ok(1));
    assert_eq!(d.poll(), Step::Ready(1));
    // Seven replacements, eight polls of stages.
    assert_eq!(polls.get(), 8);
    assert_eq!(d.0.left, 0);
}

/// A stage that adds one to `drops` when it is dropped, asks to be replaced
/// by `next` and, as that successor, reports how many drops it has seen.
struct Watched {
    drops: Arc<AtomicUsize>,
    next: Option<Box<Watched>>,
    polled: bool,
}

impl Drop for Watched {
    fn drop(&mut self) {
        self.drops.fetch_add(1, Ordering::SeqCst);
    }
}

impl Becoming for Watched {
    type Item = usize;
    type Error = &'static str;

    fn poll(&mut self) -> Step<usize, Signal<Becomer<Watched>, &'static str>> {
        assert!(!self.polled);
        self.polled = true;
        match self.next.take() {
            Some(next) => Step::Failed(Signal::Continuation(Becomer(*next))),
            None => Step::Ready(self.drops.load(Ordering::SeqCst)),
        }
    }
}

#[test]
fn replaced_stage_is_dropped_once_before_its_successor_is_polled() {
    let drops = Arc::new(AtomicUsize::new(0));
    let last = Watched { drops: drops.clone(), next: None, polled: false };
    let middle = Watched { drops: drops.clone(), next: Some(Box::new(last)), polled: false };
    let mut d = Becomer(Watched { drops: drops.clone(), next: Some(Box::new(middle)), polled: false });
    // The last stage sees the drops of the two stages before it.
    assert_eq!(d.poll(), Step::Ready(2));
    assert_eq!(drops.load(Ordering::SeqCst), 2);
}

fn is_send<T: Send>(_: &T) {}

#[test]
fn dispatcher_over_data_that_is_send_is_send_and_goes_on_where_it_was() {
    let mut d = waiting(&[1, 0], End::Value(30));
    is_send(&d);
    assert_eq!(d.poll(), Step::Pending);
    // Handed on by value between two polls, it goes on where it was.
    let mut moved = Box::new(d);
    is_send(&moved);
    assert_eq!(moved.poll(), Step::Ready(30));
}
