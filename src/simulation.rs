//! The expansion of a timeline: background events, offspring verdicts,
//! the cursor and its termination policy, and the laws that every run obeys.

use crate::order::{
    background, entry_index, is_causal, is_time_ordered, is_valid_horizon, is_within_horizon,
    lemma_background_sound, lemma_take, lemma_time_sorted_multiset, lemma_time_sorted, lemma_with_child,
    lemma_with_event, parents_at_most, time_sorted, with_event,
};
pub use crate::order::{Event, INFINITY_BITS};
use vstd::prelude::*;

verus! {

/// What becomes of an offspring candidate.
#[derive(Clone, Copy, Debug, PartialEq, Eq)]
pub enum Verdict {
    /// The candidate becomes a child of the event under expansion.
    Accept,
    /// The candidate is dropped and the offspring stream goes on: it does not
    /// come strictly after its parent, which only rounding can cause.
    Skip,
    /// The offspring stream of the event under expansion ends.
    Stop,
}

/// How the expansion stands after an event's offspring are in.
#[derive(Clone, Copy, Debug, PartialEq, Eq)]
pub enum Progress {
    /// Events remain to be expanded.
    Continue,
    /// Every event has been expanded: the simulation ended.
    Exhausted,
    /// The length bound was reached and the timeline was cut to it.
    Truncated,
}

/// The verdict on a candidate time, for a parent at time `parent_t`.
///
/// `None` stands for a kernel draw with no further offspring. A candidate
/// that is not a number in `[0, horizon)` ends the stream; one that does not
/// come strictly after its parent is skipped.
pub open spec fn verdict_of(horizon: u32, parent_t: u32, candidate: Option<u32>) -> Verdict {
    match candidate {
        None => Verdict::Stop,
        Some(t) => if t >= horizon {
            Verdict::Stop
        } else if t <= parent_t {
            Verdict::Skip
        } else {
            Verdict::Accept
        },
    }
}

/// The state of a timeline: its events, the position of the next event to
/// expand, its horizon and its optional length bound.
pub ghost struct TimelineView {
    pub events: Seq<Event>,
    pub cursor: nat,
    pub horizon: u32,
    pub max_len: Option<usize>,
}

/// One step of the expansion: a child of the event under expansion, or the
/// move to the next event.
pub ghost enum Step {
    Child(u32, u32),
    Next,
}

impl TimelineView {
    /// Some event is still to be expanded.
    pub open spec fn is_running(self) -> bool {
        self.cursor < self.events.len()
    }

    /// The event under expansion.
    pub open spec fn parent(self) -> Event {
        self.events[self.cursor as int]
    }

    /// The length bound is reached once the event at that position has been
    /// expanded.
    pub open spec fn at_bound(self) -> bool {
        self.max_len is Some && self.max_len->Some_0 == self.cursor
    }

    /// The timeline is well formed: a valid horizon; events in time order,
    /// inside the horizon and causal; no parent past the cursor; the cursor at
    /// most one past the end, and there only after a cut to the length bound;
    /// and, under a bound and short of a cut, the cursor not past the bound.
    #[verifier::opaque]
    pub open spec fn wf(self) -> bool {
        &&& is_valid_horizon(self.horizon)
        &&& is_time_ordered(self.events)
        &&& is_within_horizon(self.events, self.horizon)
        &&& is_causal(self.events)
        &&& parents_at_most(self.events, self.cursor as int)
        &&& self.cursor <= self.events.len() + 1
        &&& self.cursor == self.events.len() + 1 ==> (self.max_len is Some && self.max_len->Some_0 == self.events.len())
        &&& self.cursor <= self.events.len() && self.max_len is Some ==> self.cursor <= self.max_len->Some_0
    }
}

/// A timeline whose background events are `times` and `magnitudes`.
pub open spec fn started(
    horizon: u32,
    max_len: Option<usize>,
    times: Seq<u32>,
    magnitudes: Seq<u32>,
) -> TimelineView {
    TimelineView { events: time_sorted(background(times, magnitudes)), cursor: 0, horizon, max_len }
}

/// A timeline after the event under expansion is done with: the cursor
/// moves on, and at the length bound the events are cut to it.
pub open spec fn advanced(v: TimelineView) -> TimelineView {
    if v.at_bound() {
        TimelineView { events: v.events.take(v.cursor as int), cursor: v.cursor + 1, ..v }
    } else {
        TimelineView { cursor: v.cursor + 1, ..v }
    }
}

/// What the expansion reports when the event under expansion is done with.
pub open spec fn progress_of(v: TimelineView) -> Progress {
    if v.at_bound() {
        Progress::Truncated
    } else if v.cursor + 1 == v.events.len() {
        Progress::Exhausted
    } else {
        Progress::Continue
    }
}

/// The timeline after one step.
pub open spec fn apply(v: TimelineView, step: Step) -> TimelineView {
    match step {
        Step::Child(t, m) => TimelineView {
            events: with_event(v.events, Event { t, m, parent: Some(v.cursor as usize) }),
            ..v
        },
        Step::Next => advanced(v),
    }
}

/// `step` may be taken from `v`: the timeline is running and, for a child,
/// its time is accepted.
pub open spec fn admits(v: TimelineView, step: Step) -> bool {
    &&& v.is_running()
    &&& match step {
        Step::Child(t, _) => verdict_of(v.horizon, v.parent().t, Some(t)) == Verdict::Accept,
        Step::Next => true,
    }
}

/// The timeline after `steps`, in order.
pub open spec fn run(v: TimelineView, steps: Seq<Step>) -> TimelineView
    decreases steps.len(),
{
    if steps.len() == 0 {
        v
    } else {
        run(apply(v, steps[0]), steps.drop_first())
    }
}

/// Each of `steps` may be taken where it comes.
pub open spec fn admits_all(v: TimelineView, steps: Seq<Step>) -> bool
    decreases steps.len(),
{
    steps.len() == 0 || (admits(v, steps[0]) && admits_all(apply(v, steps[0]), steps.drop_first()))
}

proof fn lemma_child_step(v: TimelineView, t: u32, m: u32)
    requires
        v.wf(),
        admits(v, Step::Child(t, m)),
    ensures
        apply(v, Step::Child(t, m)).wf(),
        apply(v, Step::Child(t, m)).events.len() == v.events.len() + 1,
        apply(v, Step::Child(t, m)).events.take(v.cursor + 1int) == v.events.take(v.cursor + 1int),
{
    reveal(TimelineView::wf);
    let e = Event { t, m, parent: Some(v.cursor as usize) };
    lemma_with_event(v.events, e);
    lemma_with_child(v.events, e, v.cursor as int, v.horizon);
}

proof fn lemma_next_step(v: TimelineView)
    requires
        v.wf(),
        v.is_running(),
    ensures
        advanced(v).wf(),
        advanced(v).events.take(v.cursor as int) == v.events.take(v.cursor as int),
        advanced(v).events.len() >= v.cursor,
        !v.at_bound() ==> advanced(v).events == v.events,
{
    reveal(TimelineView::wf);
    let c = v.cursor as int;
    if v.at_bound() {
        lemma_take(v.events, c, v.horizon);
        assert(v.events.take(c).take(c) =~= v.events.take(c));
    }
}

proof fn lemma_started(horizon: u32, max_len: Option<usize>, times: Seq<u32>, magnitudes: Seq<u32>)
    requires
        is_valid_horizon(horizon),
        times.len() == magnitudes.len(),
        forall|i: int| 0 <= i < times.len() ==> #[trigger] times[i] < horizon,
    ensures
        started(horizon, max_len, times, magnitudes).wf(),
        started(horizon, max_len, times, magnitudes).events.len() == times.len(),
{
    reveal(TimelineView::wf);
    let b = background(times, magnitudes);
    assert forall|i: int| 0 <= i < b.len() implies (#[trigger] b[i]).t < horizon && b[i].parent is None by {
        assert(times[i] < horizon);
    }
    lemma_time_sorted(b, horizon);
    lemma_background_sound(time_sorted(b), horizon);
}

/// `v` without its length bound.
pub open spec fn unbounded(v: TimelineView) -> TimelineView {
    TimelineView { max_len: None, ..v }
}

proof fn lemma_step(v: TimelineView, step: Step)
    requires
        v.wf(),
        admits(v, step),
    ensures
        apply(v, step).wf(),
        apply(v, step).cursor >= v.cursor,
        apply(v, step).events.len() >= v.cursor,
        apply(v, step).events.take(v.cursor as int) == v.events.take(v.cursor as int),
{
    match step {
        Step::Child(t, m) => {
            lemma_child_step(v, t, m);
            let r = apply(v, step).events;
            assert(r.take(v.cursor as int) =~= r.take(v.cursor + 1int).take(v.cursor as int));
            assert(v.events.take(v.cursor as int) =~= v.events.take(v.cursor + 1int).take(
                v.cursor as int,
            ));
        },
        Step::Next => {
            lemma_next_step(v);
        },
    }
}

/// Expansion never goes back on what is settled: from a well-formed
/// timeline, admitted steps lead to a well-formed timeline whose cursor is no
/// earlier and whose events before the old cursor are those of the start.
pub proof fn lemma_run(v: TimelineView, steps: Seq<Step>)
    requires
        v.wf(),
        admits_all(v, steps),
    ensures
        run(v, steps).wf(),
        run(v, steps).cursor >= v.cursor,
        steps.len() > 0 ==> run(v, steps).events.len() >= v.cursor,
        steps.len() > 0 ==> run(v, steps).events.take(v.cursor as int) == v.events.take(
            v.cursor as int,
        ),
    decreases steps.len(),
{
    if steps.len() > 0 {
        let w = apply(v, steps[0]);
        let rest = steps.drop_first();
        lemma_step(v, steps[0]);
        if rest.len() > 0 {
            assert(admits_all(w, rest));
            reveal_with_fuel(admits_all, 2);
            assert(admits(w, rest[0]));
            lemma_run(w, rest);
            let r = run(w, rest).events;
            let c = v.cursor as int;
            assert(r.take(c) =~= r.take(w.cursor as int).take(c));
            assert(w.events.take(c) =~= w.events.take(w.cursor as int).take(c));
        }
    }
}

proof fn lemma_run_horizon(v: TimelineView, steps: Seq<Step>)
    ensures
        run(v, steps).horizon == v.horizon,
        run(v, steps).max_len == v.max_len,
    decreases steps.len(),
{
    if steps.len() > 0 {
        lemma_run_horizon(apply(v, steps[0]), steps.drop_first());
    }
}

/// Every timeline that generation reaches, from the background events of
/// `times` and `magnitudes` through admitted steps, holds its events in time
/// order, inside `[0, horizon)`, each after its parent in position and no
/// earlier than it in time.
pub proof fn generation_invariants(
    horizon: u32,
    max_len: Option<usize>,
    times: Seq<u32>,
    magnitudes: Seq<u32>,
    steps: Seq<Step>,
)
    requires
        is_valid_horizon(horizon),
        times.len() == magnitudes.len(),
        forall|i: int| 0 <= i < times.len() ==> #[trigger] times[i] < horizon,
        admits_all(started(horizon, max_len, times, magnitudes), steps),
    ensures
        is_time_ordered(run(started(horizon, max_len, times, magnitudes), steps).events),
        is_within_horizon(run(started(horizon, max_len, times, magnitudes), steps).events, horizon),
        is_causal(run(started(horizon, max_len, times, magnitudes), steps).events),
{
    let v = started(horizon, max_len, times, magnitudes);
    lemma_started(horizon, max_len, times, magnitudes);
    lemma_run(v, steps);
    let r = run(v, steps);
    assert(is_time_ordered(r.events) && is_within_horizon(r.events, r.horizon) && is_causal(r.events))
        by {
        reveal(TimelineView::wf);
    }
    lemma_run_horizon(v, steps);
}

proof fn lemma_run_concat(v: TimelineView, a: Seq<Step>, b: Seq<Step>)
    ensures
        run(v, a + b) == run(run(v, a), b),
        admits_all(v, a + b) == (admits_all(v, a) && admits_all(run(v, a), b)),
    decreases a.len(),
{
    if a.len() > 0 {
        assert((a + b).drop_first() =~= a.drop_first() + b);
        assert((a + b)[0] == a[0]);
        lemma_run_concat(apply(v, a[0]), a.drop_first(), b);
    } else {
        assert(a + b =~= b);
    }
}

proof fn lemma_unbounded_wf(v: TimelineView)
    requires
        v.wf(),
        v.cursor <= v.events.len(),
    ensures
        unbounded(v).wf(),
{
    reveal(TimelineView::wf);
}

/// A bounded run and the same run without the bound agree up to the cut;
/// after it, the unbounded one begins with the events that were kept.
proof fn lemma_shadow(v: TimelineView, steps: Seq<Step>)
    requires
        v.wf(),
        v.cursor <= v.events.len(),
        admits_all(v, steps),
    ensures
        admits_all(unbounded(v), steps),
        run(v, steps).cursor <= run(v, steps).events.len() ==> run(unbounded(v), steps) == unbounded(
            run(v, steps),
        ),
        run(v, steps).cursor > run(v, steps).events.len() ==> {
            let b = run(v, steps);
            let u = run(unbounded(v), steps);
            &&& u.wf()
            &&& u.cursor == b.cursor
            &&& u.cursor <= u.events.len()
            &&& u.events.take(b.events.len() as int) == b.events
            &&& b.max_len is Some && b.max_len->Some_0 == b.events.len()
        },
    decreases steps.len(),
{
    lemma_unbounded_wf(v);
    if steps.len() > 0 {
        let s0 = steps[0];
        let rest = steps.drop_first();
        let w = apply(v, s0);
        lemma_step(v, s0);
        assert(admits(unbounded(v), s0));
        if w.cursor <= w.events.len() {
            assert(apply(unbounded(v), s0) == unbounded(w));
            lemma_shadow(w, rest);
        } else {
            assert(rest.len() == 0) by {
                if rest.len() > 0 {
                    reveal_with_fuel(admits_all, 2);
                }
            }
            assert(run(w, rest) == w);
            let u1 = apply(unbounded(v), s0);
            assert(run(u1, rest) == u1);
            assert(v.at_bound());
            lemma_next_step(unbounded(v));
            assert(u1.events == v.events);
            assert(admits_all(u1, rest));
            assert(w.events =~= v.events.take(v.cursor as int));
        }
    }
}

/// The length bound keeps exactly the earliest events of the unbounded run.
///
/// Take a generation bounded by `max_len` that has ended, and the same
/// generation without the bound, fed the same steps and possibly more. The
/// bounded one holds at most `max_len` events, and they are the first events
/// of the unbounded one; when the unbounded one has more than `max_len`
/// events, the bounded one holds exactly `max_len`.
pub proof fn truncation_law(
    horizon: u32,
    max_len: usize,
    times: Seq<u32>,
    magnitudes: Seq<u32>,
    steps: Seq<Step>,
    more: Seq<Step>,
)
    requires
        is_valid_horizon(horizon),
        times.len() == magnitudes.len(),
        forall|i: int| 0 <= i < times.len() ==> #[trigger] times[i] < horizon,
        admits_all(started(horizon, Some(max_len), times, magnitudes), steps),
        !run(started(horizon, Some(max_len), times, magnitudes), steps).is_running(),
        admits_all(started(horizon, None, times, magnitudes), steps + more),
    ensures
        ({
            let b = run(started(horizon, Some(max_len), times, magnitudes), steps).events;
            let u = run(started(horizon, None, times, magnitudes), steps + more).events;
            &&& b.len() <= max_len
            &&& b.len() <= u.len()
            &&& u.take(b.len() as int) == b
            &&& u.len() > max_len ==> b.len() == max_len
        }),
{
    let v = started(horizon, Some(max_len), times, magnitudes);
    let u0 = started(horizon, None, times, magnitudes);
    lemma_started(horizon, Some(max_len), times, magnitudes);
    assert(u0 == unbounded(v));
    lemma_shadow(v, steps);
    lemma_run(v, steps);
    lemma_run_horizon(v, steps);
    lemma_run_concat(u0, steps, more);
    let b = run(v, steps);
    let um = run(u0, steps);
    if b.cursor <= b.events.len() {
        assert(more.len() == 0) by {
            if more.len() > 0 {
                assert(admits(um, more[0]));
            }
        }
        assert(run(um, more) == um);
        assert(b.events.len() <= max_len) by {
            reveal(TimelineView::wf);
        }
        assert(b.events.take(b.events.len() as int) =~= b.events);
    } else {
        let n = b.events.len() as int;
        lemma_run(um, more);
        if more.len() > 0 {
            let r = run(um, more).events;
            assert(r.take(n) =~= r.take(um.cursor as int).take(n));
            assert(um.events.take(n) =~= um.events.take(um.cursor as int).take(n));
        } else {
            assert(run(um, more) == um);
        }
    }
}

proof fn lemma_next_only(v: TimelineView, steps: Seq<Step>)
    requires
        admits_all(v, steps),
        forall|i: int| 0 <= i < steps.len() ==> steps[i] == Step::Next,
    ensures
        run(v, steps).events.len() <= v.events.len(),
        run(v, steps).events == v.events.take(run(v, steps).events.len() as int),
        v.max_len is None ==> run(v, steps).events == v.events,
    decreases steps.len(),
{
    if steps.len() > 0 {
        let w = apply(v, steps[0]);
        let rest = steps.drop_first();
        assert(steps[0] == Step::Next);
        assert forall|i: int| 0 <= i < rest.len() implies rest[i] == Step::Next by {
            assert(rest[i] == steps[i + 1]);
        }
        lemma_next_only(w, rest);
        let n = run(w, rest).events.len() as int;
        assert(w.events.take(n) =~= v.events.take(n));
    } else {
        assert(v.events.take(v.events.len() as int) =~= v.events);
    }
}

/// Without offspring, a generation holds its background events only.
///
/// When every step is a move to the next event (no candidate was accepted),
/// every event of the run is a background event and there are at most as
/// many as were drawn; without a length bound they are all the background
/// events, sorted by time, each kept exactly once.
pub proof fn background_only(
    horizon: u32,
    max_len: Option<usize>,
    times: Seq<u32>,
    magnitudes: Seq<u32>,
    steps: Seq<Step>,
)
    requires
        is_valid_horizon(horizon),
        times.len() == magnitudes.len(),
        forall|i: int| 0 <= i < times.len() ==> #[trigger] times[i] < horizon,
        admits_all(started(horizon, max_len, times, magnitudes), steps),
        forall|i: int| 0 <= i < steps.len() ==> steps[i] == Step::Next,
    ensures
        ({
            let r = run(started(horizon, max_len, times, magnitudes), steps).events;
            &&& r.len() <= times.len()
            &&& forall|i: int| 0 <= i < r.len() ==> (#[trigger] r[i]).parent is None
            &&& max_len is None ==> r.to_multiset() == background(times, magnitudes).to_multiset()
        }),
{
    let v = started(horizon, max_len, times, magnitudes);
    let bg = background(times, magnitudes);
    lemma_started(horizon, max_len, times, magnitudes);
    lemma_next_only(v, steps);
    assert forall|i: int| 0 <= i < bg.len() implies (#[trigger] bg[i]).t < horizon && bg[i].parent is None by {
        assert(times[i] < horizon);
    }
    lemma_time_sorted(bg, horizon);
    lemma_time_sorted_multiset(bg);
    let r = run(v, steps).events;
    assert forall|i: int| 0 <= i < r.len() implies (#[trigger] r[i]).parent is None by {
        assert(r[i] == v.events[i]);
        assert(v.events[i].t < horizon && v.events[i].parent is None);
    }
}

/// A time-ordered sequence of events.
pub struct Sequence {
    events: Vec<Event>,
}

impl View for Sequence {
    type V = Seq<Event>;

    closed spec fn view(&self) -> Seq<Event> {
        self.events@
    }
}

impl Sequence {
    /// The empty sequence.
    pub fn new() -> (r: Sequence)
        ensures
            r@ == Seq::<Event>::empty(),
    {
        Sequence { events: Vec::new() }
    }

    pub fn len(&self) -> (n: usize)
        ensures
            n == self@.len(),
    {
        self.events.len()
    }

    pub fn is_empty(&self) -> (b: bool)
        ensures
            b == (self@.len() == 0),
    {
        self.events.len() == 0
    }

    /// The event at position `i`.
    pub fn get(&self, i: usize) -> (e: Event)
        requires
            i < self@.len(),
        ensures
            e == self@[i as int],
    {
        self.events[i]
    }

    /// The events, in order.
    pub fn events(&self) -> (r: &Vec<Event>)
        ensures
            r@ == self@,
    {
        &self.events
    }
}

/// The timeline of a simulation: a growing, time-ordered, parent-linked
/// sequence of events, with a cursor on the next event whose offspring have
/// not been generated yet.
pub struct Timeline {
    events: Vec<Event>,
    cursor: usize,
    horizon: u32,
    max_len: Option<usize>,
}

impl View for Timeline {
    type V = TimelineView;

    closed spec fn view(&self) -> TimelineView {
        TimelineView {
            events: self.events@,
            cursor: self.cursor as nat,
            horizon: self.horizon,
            max_len: self.max_len,
        }
    }
}

impl Timeline {
    /// A timeline holding the background events, paired positionally from
    /// `times` and `magnitudes` and sorted by time, with the cursor on the
    /// first of them. With no background event it is not running.
    pub fn start(horizon: u32, max_len: Option<usize>, times: &Vec<u32>, magnitudes: &Vec<u32>) -> (r:
        Timeline)
        requires
            is_valid_horizon(horizon),
            times.len() == magnitudes.len(),
            forall|i: int| 0 <= i < times.len() ==> #[trigger] times@[i] < horizon,
        ensures
            r@ == started(horizon, max_len, times@, magnitudes@),
            r@.wf(),
            r@.events.len() == times.len(),
            r@.is_running() == (times.len() > 0),
            r@.events.to_multiset() == background(times@, magnitudes@).to_multiset(),
    {
        let mut events: Vec<Event> = Vec::new();
        let mut i: usize = 0;
        let ghost b = background(times@, magnitudes@);
        while i < times.len()
            invariant
                i <= times.len(),
                times.len() == magnitudes.len(),
                b == background(times@, magnitudes@),
                events@ == time_sorted(b.take(i as int)),
            decreases times.len() - i,
        {
            let e = Event { t: times[i], m: magnitudes[i], parent: None };
            proof {
                assert(b.take(i + 1).drop_last() =~= b.take(i as int));
                assert(b.take(i + 1).last() == e);
            }
            let k = entry_index(&events, e.t);
            events.insert(k, e);
            i = i + 1;
        }
        proof {
            assert(b.take(b.len() as int) =~= b);
            lemma_started(horizon, max_len, times@, magnitudes@);
            lemma_time_sorted_multiset(b);
        }
        Timeline { events, cursor: 0, horizon, max_len }
    }

    /// Some event is still to be expanded.
    pub fn is_running(&self) -> (b: bool)
        requires
            self@.wf(),
        ensures
            b == self@.is_running(),
    {
        self.cursor < self.events.len()
    }

    /// The event whose offspring are being generated.
    pub fn current(&self) -> (e: Event)
        requires
            self@.wf(),
            self@.is_running(),
        ensures
            e == self@.parent(),
    {
        self.events[self.cursor]
    }

    /// The verdict on an offspring candidate of the event under expansion.
    pub fn judge(&self, candidate: Option<u32>) -> (v: Verdict)
        requires
            self@.wf(),
            self@.is_running(),
        ensures
            v == verdict_of(self@.horizon, self@.parent().t, candidate),
    {
        match candidate {
            None => Verdict::Stop,
            Some(t) => if t >= self.horizon {
                Verdict::Stop
            } else if t <= self.events[self.cursor].t {
                Verdict::Skip
            } else {
                Verdict::Accept
            },
        }
    }

    /// Inserts an accepted child of the event under expansion, after every
    /// event no later than it.
    pub fn add_child(&mut self, t: u32, m: u32)
        requires
            old(self)@.wf(),
            admits(old(self)@, Step::Child(t, m)),
        ensures
            final(self)@ == apply(old(self)@, Step::Child(t, m)),
            final(self)@.wf(),
    {
        proof {
            lemma_child_step(self@, t, m);
        }
        let e = Event { t, m, parent: Some(self.cursor) };
        let k = entry_index(&self.events, t);
        self.events.insert(k, e);
    }

    /// Ends the expansion of the current event and moves the cursor on.
    ///
    /// Once the event at the position of the length bound has been expanded,
    /// the timeline is cut to that many events and reports `Truncated`;
    /// otherwise, once no event is left, it reports `Exhausted`.
    pub fn advance(&mut self) -> (p: Progress)
        requires
            old(self)@.wf(),
            old(self)@.is_running(),
        ensures
            final(self)@ == advanced(old(self)@),
            p == progress_of(old(self)@),
            final(self)@.wf(),
            final(self)@.is_running() == (p == Progress::Continue),
    {
        let ghost v = self@;
        proof {
            lemma_next_step(v);
        }
        let done = self.cursor;
        let len = self.events.len();
        assert(done < len);
        if let Some(bound) = self.max_len {
            if bound == done {
                self.cursor = done + 1;
                self.events.truncate(bound);
                proof {
                    assert(self@.events =~= advanced(v).events);
                }
                return Progress::Truncated;
            }
        }
        self.cursor = done + 1;
        proof {
            assert(self@.events =~= advanced(v).events);
        }
        if self.cursor == self.events.len() {
            Progress::Exhausted
        } else {
            Progress::Continue
        }
    }

    /// The events of the timeline as a finished sequence.
    pub fn into_sequence(self) -> (r: Sequence)
        requires
            self@.wf(),
        ensures
            r@ == self@.events,
            is_time_ordered(r@),
            is_within_horizon(r@, self@.horizon),
            is_causal(r@),
    {
        proof {
            reveal(TimelineView::wf);
        }
        Sequence { events: self.events }
    }
}

} // verus!
