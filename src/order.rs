//! Events and their time order: where an event enters a time-ordered
//! sequence, and what stable sorting by time makes of a sequence.

use vstd::prelude::*;
use vstd::seq_lib::{to_multiset_build, to_multiset_insert};

verus! {

/// Bit pattern of positive infinity in IEEE-754 binary32.
pub const INFINITY_BITS: u32 = 0x7f80_0000;

/// An event of a sequence.
///
/// Its time `t` and magnitude `m` are IEEE-754 binary32 bit patterns. For
/// non-negative numbers the unsigned order of the patterns is the order of
/// the values, and a pattern below that of a positive horizon is a
/// non-negative number before that horizon. `parent` is the position of the
/// triggering event, or `None` for a background event.
#[derive(Clone, Copy, Debug, PartialEq, Eq)]
pub struct Event {
    pub t: u32,
    pub m: u32,
    pub parent: Option<usize>,
}

/// A horizon is a positive number, possibly infinite, and not NaN.
pub open spec fn is_valid_horizon(h: u32) -> bool {
    0 < h <= INFINITY_BITS
}

/// Events are sorted by time, ascending.
pub open spec fn is_time_ordered(s: Seq<Event>) -> bool {
    forall|i: int, j: int| 0 <= i <= j < s.len() ==> s[i].t <= s[j].t
}

/// Every event lies in `[0, horizon)`.
pub open spec fn is_within_horizon(s: Seq<Event>, horizon: u32) -> bool {
    forall|i: int| 0 <= i < s.len() ==> #[trigger] s[i].t < horizon
}

/// Every parent stands before its child, in position and strictly in time.
pub open spec fn is_causal(s: Seq<Event>) -> bool {
    forall|i: int|
        0 <= i < s.len() && (#[trigger] s[i]).parent is Some ==> {
            let p = s[i].parent->Some_0 as int;
            p < i && s[p].t < s[i].t
        }
}

/// Every parent index is at most `bound`.
pub open spec fn parents_at_most(s: Seq<Event>, bound: int) -> bool {
    forall|i: int|
        0 <= i < s.len() && (#[trigger] s[i]).parent is Some ==> s[i].parent->Some_0 <= bound
}

/// Position at which an event of time `t` enters `s`: after the last event
/// whose time is at most `t`, scanning from the back.
pub open spec fn entry_point(s: Seq<Event>, t: u32) -> int
    decreases s.len(),
{
    if s.len() == 0 {
        0
    } else if s.last().t <= t {
        s.len() as int
    } else {
        entry_point(s.drop_last(), t)
    }
}

/// `s` with `e` inserted after every event no later than it: what a stable
/// sort by time makes of `s` followed by `e`.
pub open spec fn with_event(s: Seq<Event>, e: Event) -> Seq<Event> {
    s.insert(entry_point(s, e.t), e)
}

/// `s` sorted by time, stably: events of equal time keep their order.
pub open spec fn time_sorted(s: Seq<Event>) -> Seq<Event>
    decreases s.len(),
{
    if s.len() == 0 {
        s
    } else {
        with_event(time_sorted(s.drop_last()), s.last())
    }
}

/// Background events paired positionally from times and magnitudes.
pub open spec fn background(times: Seq<u32>, magnitudes: Seq<u32>) -> Seq<Event> {
    Seq::new(times.len(), |i: int| Event { t: times[i], m: magnitudes[i], parent: None })
}

pub(crate) proof fn lemma_entry_point(s: Seq<Event>, t: u32)
    ensures
        0 <= entry_point(s, t) <= s.len(),
        forall|i: int| entry_point(s, t) <= i < s.len() ==> t < #[trigger] s[i].t,
        is_time_ordered(s) ==> forall|i: int| 0 <= i < entry_point(s, t) ==> #[trigger] s[i].t <= t,
    decreases s.len(),
{
    if s.len() > 0 && s.last().t > t {
        lemma_entry_point(s.drop_last(), t);
        assert forall|i: int| entry_point(s, t) <= i < s.len() implies t < #[trigger] s[i].t by {
            if i < s.len() - 1 {
                assert(s[i] == s.drop_last()[i]);
            }
        }
        if is_time_ordered(s) {
            assert(is_time_ordered(s.drop_last()));
            assert forall|i: int| 0 <= i < entry_point(s, t) implies #[trigger] s[i].t <= t by {
                assert(s[i] == s.drop_last()[i]);
            }
        }
    } else if s.len() > 0 {
        if is_time_ordered(s) {
            assert forall|i: int| 0 <= i < entry_point(s, t) implies #[trigger] s[i].t <= t by {
                assert(s[i].t <= s[s.len() - 1].t);
            }
        }
    }
}

pub(crate) proof fn lemma_with_event(s: Seq<Event>, e: Event)
    requires
        is_time_ordered(s),
    ensures
        is_time_ordered(with_event(s, e)),
        with_event(s, e).len() == s.len() + 1,
        with_event(s, e)[entry_point(s, e.t)] == e,
        forall|i: int| 0 <= i < entry_point(s, e.t) ==> #[trigger] with_event(s, e)[i] == s[i],
        forall|i: int|
            entry_point(s, e.t) < i <= s.len() ==> #[trigger] with_event(s, e)[i] == s[i - 1],
        forall|i: int|
            0 <= i < with_event(s, e).len() ==> #[trigger] with_event(s, e)[i] == e || s.contains(
                with_event(s, e)[i],
            ),
{
    let k = entry_point(s, e.t);
    lemma_entry_point(s, e.t);
    s.insert_ensures(k, e);
    let r = with_event(s, e);
    assert forall|i: int| entry_point(s, e.t) < i <= s.len() implies #[trigger] r[i] == s[i - 1] by {
        assert(r[(i - 1) + 1] == s[i - 1]);
    }
    assert forall|i: int, j: int| 0 <= i <= j < r.len() implies r[i].t <= r[j].t by {
        if j < k {
        } else if j == k {
            if i < k {
            }
        } else {
            if i > k {
                assert(r[i] == s[i - 1]);
                assert(r[j] == s[j - 1]);
            } else if i == k {
                assert(r[j] == s[j - 1]);
            } else {
                assert(r[j] == s[j - 1]);
            }
        }
    }
    assert forall|i: int| 0 <= i < r.len() implies #[trigger] r[i] == e || s.contains(r[i]) by {
        if i < k {
            assert(r[i] == s[i]);
        } else if i > k {
            assert(r[i] == s[i - 1]);
        }
    }
}

pub(crate) proof fn lemma_time_sorted(s: Seq<Event>, horizon: u32)
    requires
        forall|i: int| 0 <= i < s.len() ==> (#[trigger] s[i]).t < horizon && s[i].parent is None,
    ensures
        time_sorted(s).len() == s.len(),
        is_time_ordered(time_sorted(s)),
        forall|i: int|
            0 <= i < s.len() ==> (#[trigger] time_sorted(s)[i]).t < horizon && time_sorted(s)[i].parent is None,
    decreases s.len(),
{
    if s.len() > 0 {
        let p = s.drop_last();
        assert forall|i: int| 0 <= i < p.len() implies (#[trigger] p[i]).t < horizon && p[i].parent is None by {
            assert(p[i] == s[i]);
        }
        lemma_time_sorted(p, horizon);
        let e = s.last();
        lemma_with_event(time_sorted(p), e);
        let r = time_sorted(s);
        assert forall|i: int| 0 <= i < s.len() implies (#[trigger] r[i]).t < horizon && r[i].parent is None by {
            if r[i] != e {
                let j = choose|j: int| 0 <= j < time_sorted(p).len() && time_sorted(p)[j] == r[i];
                assert(time_sorted(p)[j].t < horizon);
            }
        }
    }
}

pub(crate) proof fn lemma_time_sorted_multiset(s: Seq<Event>)
    ensures
        time_sorted(s).to_multiset() == s.to_multiset(),
    decreases s.len(),
{
    if s.len() > 0 {
        let p = s.drop_last();
        lemma_time_sorted_multiset(p);
        lemma_entry_point(time_sorted(p), s.last().t);
        to_multiset_insert(time_sorted(p), entry_point(time_sorted(p), s.last().t), s.last());
        to_multiset_build(p, s.last());
        assert(p.push(s.last()) =~= s);
    }
}

pub(crate) proof fn lemma_background_sound(s: Seq<Event>, horizon: u32)
    requires
        forall|i: int| 0 <= i < s.len() ==> (#[trigger] s[i]).t < horizon && s[i].parent is None,
    ensures
        is_within_horizon(s, horizon),
        is_causal(s),
        parents_at_most(s, 0),
{
    assert forall|i: int| 0 <= i < s.len() implies #[trigger] s[i].t < horizon by {
        assert(s[i].t < horizon && s[i].parent is None);
    }
    assert forall|i: int| 0 <= i < s.len() && (#[trigger] s[i]).parent is Some implies {
        let p = s[i].parent->Some_0 as int;
        p < i && s[p].t < s[i].t
    } by {
        assert(s[i].t < horizon && s[i].parent is None);
    }
    assert forall|i: int| 0 <= i < s.len() && (#[trigger] s[i]).parent is Some implies s[i].parent->Some_0
        <= 0 by {
        assert(s[i].t < horizon && s[i].parent is None);
    }
}

/// Position at which an event of time `t` enters `events`.
pub(crate) fn entry_index(events: &Vec<Event>, t: u32) -> (k: usize)
    ensures
        k == entry_point(events@, t),
        k <= events.len(),
{
    let mut k: usize = events.len();
    proof {
        assert(events@.take(events@.len() as int) =~= events@);
    }
    while k > 0 && events[k - 1].t > t
        invariant
            k <= events.len(),
            entry_point(events@, t) == entry_point(events@.take(k as int), t),
        decreases k,
    {
        let ghost s = events@.take(k as int);
        assert(s.drop_last() =~= events@.take(k - 1));
        k = k - 1;
    }
    k
}

pub(crate) proof fn lemma_with_child(s: Seq<Event>, e: Event, c: int, horizon: u32)
    requires
        is_time_ordered(s),
        is_within_horizon(s, horizon),
        is_causal(s),
        parents_at_most(s, c),
        0 <= c < s.len(),
        s[c].t < e.t < horizon,
        e.parent == Some(c as usize),
    ensures
        c < entry_point(s, e.t),
        is_within_horizon(with_event(s, e), horizon),
        is_causal(with_event(s, e)),
        parents_at_most(with_event(s, e), c),
        with_event(s, e).take(c + 1) == s.take(c + 1),
{
    let k = entry_point(s, e.t);
    lemma_entry_point(s, e.t);
    lemma_with_event(s, e);
    let r = with_event(s, e);
    assert(c < k) by {
        if c >= k {
            assert(e.t < s[c].t);
        }
    }
    assert forall|i: int| 0 <= i < r.len() implies #[trigger] r[i].t < horizon by {
        if i < k {
            assert(r[i] == s[i]);
            assert(s[i].t < horizon);
        } else if i > k {
            assert(r[i] == s[i - 1]);
            assert(s[i - 1].t < horizon);
        }
    }
    assert forall|i: int| 0 <= i < r.len() && (#[trigger] r[i]).parent is Some implies {
        let p = r[i].parent->Some_0 as int;
        p < i && r[p].t < r[i].t
    } by {
        if i < k {
            assert(r[i] == s[i]);
            let p = s[i].parent->Some_0 as int;
            assert(p < i);
            assert(r[p] == s[p]);
        } else if i > k {
            assert(r[i] == s[i - 1]);
            assert(s[i - 1].parent is Some);
            let p = s[i - 1].parent->Some_0 as int;
            assert(p <= c);
            assert(r[p] == s[p]);
        } else {
            assert(r[c] == s[c]);
        }
    }
    assert forall|i: int| 0 <= i < r.len() && (#[trigger] r[i]).parent is Some implies r[i].parent->Some_0
        <= c by {
        if i < k {
            assert(r[i] == s[i]);
        } else if i > k {
            assert(r[i] == s[i - 1]);
        }
    }
    assert(r.take(c + 1) =~= s.take(c + 1));
}

pub(crate) proof fn lemma_take(s: Seq<Event>, n: int, horizon: u32)
    requires
        is_time_ordered(s),
        is_within_horizon(s, horizon),
        is_causal(s),
        0 <= n <= s.len(),
    ensures
        is_time_ordered(s.take(n)),
        is_within_horizon(s.take(n), horizon),
        is_causal(s.take(n)),
        parents_at_most(s.take(n), n),
{
    let r = s.take(n);
    assert forall|i: int| 0 <= i < r.len() && (#[trigger] r[i]).parent is Some implies {
        let p = r[i].parent->Some_0 as int;
        p < i && r[p].t < r[i].t
    } by {
        assert(r[i] == s[i]);
        let p = s[i].parent->Some_0 as int;
        assert(r[p] == s[p]);
    }
    assert forall|i: int| 0 <= i < r.len() && (#[trigger] r[i]).parent is Some implies r[i].parent->Some_0
        <= n by {
        assert(r[i] == s[i]);
    }
    assert forall|i: int| 0 <= i < r.len() implies #[trigger] r[i].t < horizon by {
        assert(r[i] == s[i]);
    }
}

} // verus!
