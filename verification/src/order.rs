//! The order in which events are placed: by first day, events that start on
//! one day in the order they were given in.

use crate::event::{Event, EventView};
use vstd::prelude::*;

verus! {

/// The events as mathematical values.
pub open spec fn views(events: Seq<Event>) -> Seq<EventView> {
    events.map_values(|e: Event| e@)
}

/// `sorted` with `event` put behind the last event that starts no later.
pub open spec fn insert_by_start(sorted: Seq<EventView>, event: EventView) -> Seq<EventView>
    decreases sorted.len(),
{
    if sorted.len() == 0 || sorted.last().start <= event.start {
        sorted.push(event)
    } else {
        insert_by_start(sorted.drop_last(), event).push(sorted.last())
    }
}

/// The events in the order of their first days; events that start on one day
/// keep the order they have in `events`.
pub open spec fn sorted_by_start(events: Seq<EventView>) -> Seq<EventView>
    decreases events.len(),
{
    if events.len() == 0 {
        Seq::empty()
    } else {
        insert_by_start(sorted_by_start(events.drop_last()), events.last())
    }
}

/// Whether each event starts no later than the events behind it.
pub open spec fn ordered_by_start(events: Seq<EventView>) -> bool {
    forall|i: int, j: int| 0 <= i <= j < events.len() ==> events[i].start <= events[j].start
}

/// The first events of an ordered sequence are ordered.
pub proof fn lemma_take_ordered(events: Seq<EventView>, upto: int)
    requires
        ordered_by_start(events),
        0 <= upto <= events.len(),
    ensures
        ordered_by_start(events.take(upto)),
{
    let first = events.take(upto);
    assert forall|i: int, j: int| 0 <= i <= j < first.len() implies first[i].start
        <= first[j].start by {
        assert(events[i].start <= events[j].start);
    }
}

/// Where `insert_by_start` puts `event`: behind position `at - 1`, which
/// starts no later, and before all that follow, which start later.
pub proof fn lemma_insert_position(sorted: Seq<EventView>, event: EventView, at: int)
    requires
        0 <= at <= sorted.len(),
        at > 0 ==> sorted[at - 1].start <= event.start,
        forall|j: int| at <= j < sorted.len() ==> sorted[j].start > event.start,
    ensures
        insert_by_start(sorted, event) == sorted.insert(at, event),
    decreases sorted.len() - at,
{
    if at == sorted.len() {
        assert(sorted.insert(at, event) =~= sorted.push(event));
    } else {
        lemma_insert_position(sorted.drop_last(), event, at);
        assert(sorted.insert(at, event) =~= sorted.drop_last().insert(at, event).push(
            sorted.last(),
        ));
    }
}

/// The number of events that `pred` holds of.
pub open spec fn count(events: Seq<EventView>, pred: spec_fn(EventView) -> bool) -> nat
    decreases events.len(),
{
    if events.len() == 0 {
        0
    } else {
        count(events.drop_last(), pred) + if pred(events.last()) {
            1nat
        } else {
            0nat
        }
    }
}

/// The events that start on `day`, in the order they have in `events`.
pub open spec fn starting_on(events: Seq<EventView>, day: int) -> Seq<EventView> {
    events.filter(|e: EventView| e.start == day)
}

/// An event that `pred` holds of is counted.
pub proof fn lemma_count_at(events: Seq<EventView>, pred: spec_fn(EventView) -> bool, i: int)
    requires
        0 <= i < events.len(),
        pred(events[i]),
    ensures
        count(events, pred) >= 1,
    decreases events.len(),
{
    if i < events.len() - 1 {
        lemma_count_at(events.drop_last(), pred, i);
    }
}

/// Two events that `pred` holds of are both counted.
pub proof fn lemma_count_two(
    events: Seq<EventView>,
    pred: spec_fn(EventView) -> bool,
    i: int,
    j: int,
)
    requires
        0 <= i < j < events.len(),
        pred(events[i]),
        pred(events[j]),
    ensures
        count(events, pred) >= 2,
    decreases events.len(),
{
    if j < events.len() - 1 {
        lemma_count_two(events.drop_last(), pred, i, j);
    } else {
        lemma_count_at(events.drop_last(), pred, i);
    }
}

/// Where something is counted, `pred` holds of an event.
pub proof fn lemma_count_witness(events: Seq<EventView>, pred: spec_fn(EventView) -> bool) -> (i:
    int)
    requires
        count(events, pred) >= 1,
    ensures
        0 <= i < events.len(),
        pred(events[i]),
    decreases events.len(),
{
    if pred(events.last()) {
        events.len() - 1
    } else {
        lemma_count_witness(events.drop_last(), pred)
    }
}

/// Where two are counted, `pred` holds of two events.
pub proof fn lemma_count_two_witnesses(
    events: Seq<EventView>,
    pred: spec_fn(EventView) -> bool,
) -> (found: (int, int))
    requires
        count(events, pred) >= 2,
    ensures
        0 <= found.0 < found.1 < events.len(),
        pred(events[found.0]),
        pred(events[found.1]),
    decreases events.len(),
{
    if pred(events.last()) {
        let i = lemma_count_witness(events.drop_last(), pred);
        (i, events.len() - 1)
    } else {
        lemma_count_two_witnesses(events.drop_last(), pred)
    }
}

/// `insert_by_start` adds the one event and keeps the others.
pub proof fn lemma_insert_count(
    sorted: Seq<EventView>,
    event: EventView,
    pred: spec_fn(EventView) -> bool,
)
    ensures
        count(insert_by_start(sorted, event), pred) == count(sorted, pred) + if pred(event) {
            1nat
        } else {
            0nat
        },
        insert_by_start(sorted, event).len() == sorted.len() + 1,
    decreases sorted.len(),
{
    if sorted.len() == 0 || sorted.last().start <= event.start {
        assert(sorted.push(event).drop_last() =~= sorted);
    } else {
        lemma_insert_count(sorted.drop_last(), event, pred);
        let inner = insert_by_start(sorted.drop_last(), event);
        assert(inner.push(sorted.last()).drop_last() =~= inner);
    }
}

/// Sorting keeps the events: of each kind as many as before.
pub proof fn lemma_sorted_count(events: Seq<EventView>, pred: spec_fn(EventView) -> bool)
    ensures
        count(sorted_by_start(events), pred) == count(events, pred),
        sorted_by_start(events).len() == events.len(),
    decreases events.len(),
{
    if events.len() > 0 {
        lemma_sorted_count(events.drop_last(), pred);
        lemma_insert_count(sorted_by_start(events.drop_last()), events.last(), pred);
    }
}

/// The place that `insert_by_start` puts `event` at.
pub open spec fn insert_place(sorted: Seq<EventView>, event: EventView) -> int
    decreases sorted.len(),
{
    if sorted.len() == 0 || sorted.last().start <= event.start {
        sorted.len() as int
    } else {
        insert_place(sorted.drop_last(), event)
    }
}

/// `insert_by_start` puts `event` at `insert_place`, behind every event that
/// starts no later.
pub proof fn lemma_insert_place(sorted: Seq<EventView>, event: EventView)
    ensures
        0 <= insert_place(sorted, event) <= sorted.len(),
        insert_by_start(sorted, event) == sorted.insert(insert_place(sorted, event), event),
        insert_place(sorted, event) > 0 ==> sorted[insert_place(sorted, event) - 1].start
            <= event.start,
        forall|j: int|
            insert_place(sorted, event) <= j < sorted.len() ==> (#[trigger] sorted[j]).start
                > event.start,
    decreases sorted.len(),
{
    if sorted.len() == 0 || sorted.last().start <= event.start {
    } else {
        let rest = sorted.drop_last();
        lemma_insert_place(rest, event);
        assert forall|j: int| insert_place(sorted, event) <= j < sorted.len() implies (
        #[trigger] sorted[j]).start > event.start by {
            if j < rest.len() {
                assert(rest[j].start > event.start);
            }
        }
    }
    lemma_insert_position(sorted, event, insert_place(sorted, event));
}

/// `insert_by_start` keeps the order of first days.
pub proof fn lemma_insert_ordered(sorted: Seq<EventView>, event: EventView)
    requires
        ordered_by_start(sorted),
    ensures
        ordered_by_start(insert_by_start(sorted, event)),
{
    lemma_insert_place(sorted, event);
    let at = insert_place(sorted, event);
    let out = sorted.insert(at, event);
    assert forall|i: int, j: int| 0 <= i <= j < out.len() implies out[i].start <= out[j].start by {
        if i < at && j > at {
            assert(sorted[i].start <= sorted[j - 1].start);
        } else if i < at && j == at {
            assert(sorted[i].start <= sorted[at - 1].start);
        } else if i == at && j > at {
            assert(sorted[j - 1].start > event.start);
        } else if i > at {
            assert(sorted[i - 1].start <= sorted[j - 1].start);
        }
    }
}

/// The sorted events are in the order of their first days.
pub proof fn lemma_sorted_ordered(events: Seq<EventView>)
    ensures
        ordered_by_start(sorted_by_start(events)),
    decreases events.len(),
{
    if events.len() > 0 {
        lemma_sorted_ordered(events.drop_last());
        lemma_insert_ordered(sorted_by_start(events.drop_last()), events.last());
    }
}

/// `insert_by_start` puts `event` behind the events that start on its day
/// and leaves the events of each other day as they are.
pub proof fn lemma_insert_starting_on(sorted: Seq<EventView>, event: EventView, day: int)
    ensures
        starting_on(insert_by_start(sorted, event), day) == if event.start == day {
            starting_on(sorted, day).push(event)
        } else {
            starting_on(sorted, day)
        },
    decreases sorted.len(),
{
    reveal(Seq::filter);
    let pred = |e: EventView| e.start == day;
    if sorted.len() == 0 || sorted.last().start <= event.start {
        assert(sorted.push(event).drop_last() =~= sorted);
    } else {
        lemma_insert_starting_on(sorted.drop_last(), event, day);
        let inner = insert_by_start(sorted.drop_last(), event);
        assert(inner.push(sorted.last()).drop_last() =~= inner);
    }
}

/// Sorting keeps, for each day, the events that start on it in the order
/// they were given in.
pub proof fn lemma_sorted_starting_on(events: Seq<EventView>, day: int)
    ensures
        starting_on(sorted_by_start(events), day) == starting_on(events, day),
    decreases events.len(),
{
    reveal(Seq::filter);
    if events.len() > 0 {
        lemma_sorted_starting_on(events.drop_last(), day);
        lemma_insert_starting_on(sorted_by_start(events.drop_last()), events.last(), day);
    }
}

/// Where events start on `day`, one of `events` does.
pub proof fn lemma_starting_on_witness(events: Seq<EventView>, day: int) -> (i: int)
    requires
        starting_on(events, day).len() > 0,
    ensures
        0 <= i < events.len(),
        events[i].start == day,
    decreases events.len(),
{
    reveal(Seq::filter);
    if events.last().start == day {
        events.len() - 1
    } else {
        lemma_starting_on_witness(events.drop_last(), day)
    }
}

/// An event is among those that start on its first day.
pub proof fn lemma_starting_on_has(events: Seq<EventView>, i: int)
    requires
        0 <= i < events.len(),
    ensures
        starting_on(events, events[i].start).len() > 0,
    decreases events.len(),
{
    reveal(Seq::filter);
    if i < events.len() - 1 {
        lemma_starting_on_has(events.drop_last(), i);
    }
}

/// Events in the order of their first days are known by day: two such
/// sequences that agree, for each day, on the events that start on it and on
/// their order are one sequence.
pub proof fn lemma_ordered_is_unique(a: Seq<EventView>, b: Seq<EventView>)
    requires
        ordered_by_start(a),
        ordered_by_start(b),
        forall|day: int| starting_on(a, day) == starting_on(b, day),
    ensures
        a == b,
    decreases a.len(),
{
    reveal(Seq::filter);
    if a.len() == 0 {
        if b.len() > 0 {
            lemma_starting_on_has(b, 0);
            assert(starting_on(a, b[0].start) == starting_on(b, b[0].start));
        }
        assert(a =~= b);
    } else {
        let x = a.last();
        let day = x.start;
        assert(starting_on(a, day) == starting_on(a.drop_last(), day).push(x));
        assert(starting_on(a, day) == starting_on(b, day));
        let j = lemma_starting_on_witness(b, day);
        let y = b.last();
        assert(b[j].start <= b[b.len() - 1].start);
        lemma_starting_on_has(b, b.len() - 1);
        assert(starting_on(a, y.start) == starting_on(b, y.start));
        let i = lemma_starting_on_witness(a, y.start);
        assert(a[i].start <= a[a.len() - 1].start);
        assert(y.start == day);
        assert(starting_on(b, day) == starting_on(b.drop_last(), day).push(y));
        let front_a = starting_on(a.drop_last(), day);
        let front_b = starting_on(b.drop_last(), day);
        assert(front_a.push(x).last() == front_b.push(y).last());
        assert(front_a.push(x).drop_last() =~= front_a);
        assert(front_b.push(y).drop_last() =~= front_b);
        assert(x == y);
        assert forall|other: int|
            starting_on(a.drop_last(), other) == starting_on(b.drop_last(), other) by {
            if other != day {
                assert(starting_on(a, other) == starting_on(b, other));
            }
        }
        assert(ordered_by_start(a.drop_last()));
        assert(ordered_by_start(b.drop_last()));
        lemma_ordered_is_unique(a.drop_last(), b.drop_last());
        assert(a =~= a.drop_last().push(x));
        assert(b =~= b.drop_last().push(y));
    }
}

/// Each event is among the sorted events.
pub proof fn lemma_sorted_has(events: Seq<EventView>, i: int) -> (position: int)
    requires
        0 <= i < events.len(),
    ensures
        0 <= position < sorted_by_start(events).len(),
        sorted_by_start(events)[position] == events[i],
{
    let same = |e: EventView| e == events[i];
    lemma_count_at(events, same, i);
    lemma_sorted_count(events, same);
    lemma_count_witness(sorted_by_start(events), same)
}

/// Each of the sorted events is one of the events.
pub proof fn lemma_sorted_from(events: Seq<EventView>, position: int) -> (i: int)
    requires
        0 <= position < sorted_by_start(events).len(),
    ensures
        0 <= i < events.len(),
        events[i] == sorted_by_start(events)[position],
{
    let same = |e: EventView| e == sorted_by_start(events)[position];
    lemma_count_at(sorted_by_start(events), same, position);
    lemma_sorted_count(events, same);
    lemma_count_witness(events, same)
}

/// Sorts the events by their first days; events that start on one day keep
/// the order they came in.
pub fn sort_by_start(events: Vec<Event>) -> (sorted: Vec<Event>)
    ensures
        views(sorted@) == sorted_by_start(views(events@)),
{
    let mut sorted: Vec<Event> = Vec::new();
    for event in it: events
        invariant
            views(sorted@) == sorted_by_start(views(events@).take(it.index() as int)),
    {
        let ghost before = views(sorted@);
        let ghost seen = views(events@).take(it.index() as int);
        let start: i32 = event.start.days();
        let mut at: usize = sorted.len();
        while at > 0 && sorted[at - 1].start.days() > start
            invariant
                at <= sorted.len(),
                start == event.start@,
                forall|j: int| at <= j < sorted.len() ==> sorted[j].start@ > start,
            decreases at,
        {
            at -= 1;
        }
        proof {
            lemma_insert_position(before, event@, at as int);
            let next = views(events@).take(it.index() + 1);
            assert(next.drop_last() =~= seen);
            assert(next.last() == event@);
            assert(views(sorted@.insert(at as int, event)) =~= before.insert(at as int, event@));
        }
        sorted.insert(at, event);
    }
    proof {
        assert(views(events@).take(events@.len() as int) =~= views(events@));
    }
    sorted
}

} // verus!
