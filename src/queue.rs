//! The event queue: what the queued events are after each step of a tick,
//! and the steps themselves.
use vstd::prelude::*;
use crate::event::{Event, Queued};
use crate::containers::{
    EventQueue, NUM_FINGERS, queue_get, queue_items, queue_len, queue_pop_front, queue_push_back,
};
use crate::active::vec_contains;

verus! {

/// One tick more, saturating at the largest value.
pub open spec fn sat_inc(x: u16) -> u16 {
    if x == u16::MAX {
        x
    } else {
        (x + 1) as u16
    }
}

pub(crate) fn sat_inc_u16(x: u16) -> (r: u16)
    ensures
        r == sat_inc(x),
{
    if x == u16::MAX {
        x
    } else {
        x + 1
    }
}

pub(crate) proof fn lemma_sub_push<A>(s: Seq<A>, i: int)
    requires
        0 <= i < s.len(),
    ensures
        s.subrange(0, i + 1) =~= s.subrange(0, i).push(s[i]),
        s.subrange(0, i + 1).drop_last() =~= s.subrange(0, i),
        s.subrange(i, s.len() as int).drop_first() =~= s.subrange(i + 1, s.len() as int),
{
}

/// The event one tick older.
pub open spec fn aged_event(e: Queued) -> Queued {
    Queued { event: e.event, since: sat_inc(e.since) }
}

/// Every event one tick older.
pub open spec fn aged_events(q: Seq<Queued>) -> Seq<Queued> {
    q.map_values(|e: Queued| aged_event(e))
}

/// Ages every queued event by one tick.
pub(crate) fn age_queue(q: &mut EventQueue)
    requires
        queue_items(*old(q)).len() <= NUM_FINGERS,
    ensures
        queue_items(*final(q)) == aged_events(queue_items(*old(q))),
{
    let ghost orig = queue_items(*q);
    let n = queue_len(q);
    let mut i: usize = 0;
    while i < n
        invariant
            n == orig.len(),
            n <= NUM_FINGERS,
            0 <= i <= n,
            queue_items(*q) == orig.subrange(i as int, n as int) + aged_events(
                orig.subrange(0, i as int),
            ),
        decreases n - i,
    {
        proof {
            lemma_sub_push(orig, i as int);
            assert(queue_items(*q)[0] == orig[i as int]);
        }
        let e = queue_pop_front(q).unwrap();
        let aged = Queued { event: e.event, since: sat_inc_u16(e.since) };
        queue_push_back(q, aged);
        proof {
            assert(aged_events(orig.subrange(0, i as int + 1)) =~= aged_events(
                orig.subrange(0, i as int),
            ).push(aged));
            assert(queue_items(*q) =~= orig.subrange(i as int + 1, n as int) + aged_events(
                orig.subrange(0, i as int + 1),
            ));
        }
        i = i + 1;
    }
    proof {
        assert(orig.subrange(0, n as int) =~= orig);
        assert(queue_items(*q) =~= aged_events(orig));
    }
}

/// Moves every queued event, in order, to `out`.
pub(crate) fn drain_all(q: &mut EventQueue, out: &mut Vec<Queued>)
    ensures
        queue_items(*final(q)) == Seq::<Queued>::empty(),
        final(out)@ == old(out)@ + queue_items(*old(q)),
{
    let ghost orig = queue_items(*q);
    let ghost out0 = out@;
    let n = queue_len(q);
    let mut i: usize = 0;
    while i < n
        invariant
            n == orig.len(),
            0 <= i <= n,
            queue_items(*q) == orig.subrange(i as int, n as int),
            out@ == out0 + orig.subrange(0, i as int),
        decreases n - i,
    {
        proof {
            lemma_sub_push(orig, i as int);
        }
        let e = queue_pop_front(q).unwrap();
        out.push(e);
        proof {
            assert(out@ =~= out0 + orig.subrange(0, i as int + 1));
        }
        i = i + 1;
    }
    proof {
        assert(orig.subrange(0, n as int) =~= orig);
        assert(queue_items(*q) =~= Seq::<Queued>::empty());
    }
}

/// Row 0 holds the physically scanned keys.
pub open spec fn is_physical(e: Queued) -> bool {
    e.event.row() == 0
}

/// The events on physical keys, in order.
pub open spec fn physical_events(q: Seq<Queued>) -> Seq<Queued>
    decreases q.len(),
{
    if q.len() == 0 {
        Seq::empty()
    } else {
        let r = physical_events(q.drop_last());
        if is_physical(q.last()) {
            r.push(q.last())
        } else {
            r
        }
    }
}

/// The events on virtual keys, in order.
pub open spec fn virtual_events(q: Seq<Queued>) -> Seq<Queued>
    decreases q.len(),
{
    if q.len() == 0 {
        Seq::empty()
    } else {
        let r = virtual_events(q.drop_last());
        if is_physical(q.last()) {
            r
        } else {
            r.push(q.last())
        }
    }
}

fn event_is_physical(e: Queued) -> (r: bool)
    ensures
        r == is_physical(e),
{
    match e.event {
        Event::Press(i, _) => i == 0,
        Event::Release(i, _) => i == 0,
    }
}

pub(crate) fn event_key(e: Queued) -> (r: u16)
    ensures
        r == e.event.key(),
{
    match e.event {
        Event::Press(_, j) => j,
        Event::Release(_, j) => j,
    }
}

fn event_is_press(e: Queued) -> (r: bool)
    ensures
        r == is_press(e),
{
    match e.event {
        Event::Press(..) => true,
        Event::Release(..) => false,
    }
}

pub(crate) proof fn lemma_physical_len(q: Seq<Queued>)
    ensures
        physical_events(q).len() <= q.len(),
    decreases q.len(),
{
    if q.len() > 0 {
        lemma_physical_len(q.drop_last());
    }
}

/// Moves the events on virtual keys to `out`, keeping the rest queued.
pub(crate) fn drain_virtual_keys(q: &mut EventQueue, out: &mut Vec<Queued>)
    requires
        queue_items(*old(q)).len() <= NUM_FINGERS,
    ensures
        queue_items(*final(q)) == physical_events(queue_items(*old(q))),
        final(out)@ == old(out)@ + virtual_events(queue_items(*old(q))),
{
    let ghost orig = queue_items(*q);
    let ghost out0 = out@;
    let n = queue_len(q);
    let mut i: usize = 0;
    while i < n
        invariant
            n == orig.len(),
            n <= NUM_FINGERS,
            0 <= i <= n,
            queue_items(*q) == orig.subrange(i as int, n as int) + physical_events(
                orig.subrange(0, i as int),
            ),
            out@ == out0 + virtual_events(orig.subrange(0, i as int)),
        decreases n - i,
    {
        proof {
            lemma_sub_push(orig, i as int);
            lemma_physical_len(orig.subrange(0, i as int));
            assert(queue_items(*q)[0] == orig[i as int]);
        }
        let e = queue_pop_front(q).unwrap();
        if event_is_physical(e) {
            queue_push_back(q, e);
        } else {
            out.push(e);
        }
        proof {
            let p = orig.subrange(0, i as int + 1);
            assert(p.last() == e);
            assert(queue_items(*q) =~= orig.subrange(i as int + 1, n as int) + physical_events(p));
            assert(out@ =~= out0 + virtual_events(p));
        }
        i = i + 1;
    }
    proof {
        assert(orig.subrange(0, n as int) =~= orig);
        assert(queue_items(*q) =~= physical_events(orig));
    }
}

/// Whether the event is a press.
pub open spec fn is_press(e: Queued) -> bool {
    e.event is Press
}

/// The number of leading events that are presses (`press`) or releases.
pub open spec fn leading(q: Seq<Queued>, press: bool) -> nat
    decreases q.len(),
{
    if q.len() > 0 && is_press(q[0]) == press {
        1 + leading(q.drop_first(), press)
    } else {
        0
    }
}

/// The keys of the events, in order.
pub open spec fn keys_of(q: Seq<Queued>) -> Seq<u16> {
    q.map_values(|e: Queued| e.event.key())
}

proof fn lemma_leading_exact(q: Seq<Queued>, press: bool, i: int)
    requires
        0 <= i <= q.len(),
        forall|j: int| 0 <= j < i ==> is_press(#[trigger] q[j]) == press,
        i == q.len() || is_press(q[i]) != press,
    ensures
        leading(q, press) == i,
    decreases i,
{
    if i > 0 {
        let r = q.drop_first();
        assert forall|j: int| 0 <= j < i - 1 implies is_press(#[trigger] r[j]) == press by {
            assert(r[j] == q[j + 1]);
        }
        if i - 1 < r.len() {
            assert(r[i - 1] == q[i]);
        }
        lemma_leading_exact(r, press, i - 1);
    }
}

pub(crate) proof fn lemma_leading_props(q: Seq<Queued>, press: bool)
    ensures
        leading(q, press) <= q.len(),
        forall|j: int| 0 <= j < leading(q, press) ==> is_press(#[trigger] q[j]) == press,
        leading(q, press) == q.len() || is_press(q[leading(q, press) as int]) != press,
    decreases q.len(),
{
    if q.len() > 0 && is_press(q[0]) == press {
        let r = q.drop_first();
        lemma_leading_props(r, press);
        assert forall|j: int| 0 <= j < leading(q, press) implies is_press(#[trigger] q[j])
            == press by {
            if j > 0 {
                assert(q[j] == r[j - 1]);
            }
        }
        if leading(q, press) < q.len() {
            assert(q[leading(q, press) as int] == r[leading(r, press) as int]);
        }
    }
}

/// Counts the leading presses (`press`) or releases of the queue.
pub(crate) fn count_leading(q: &EventQueue, press: bool) -> (r: usize)
    requires
        queue_items(*q).len() <= NUM_FINGERS,
    ensures
        r == leading(queue_items(*q), press),
{
    let ghost items = queue_items(*q);
    let n = queue_len(q);
    let mut i: usize = 0;
    while i < n
        invariant
            n == items.len(),
            queue_items(*q) == items,
            0 <= i <= n,
            forall|j: int| 0 <= j < i ==> is_press(#[trigger] items[j]) == press,
        ensures
            0 <= i <= n,
            forall|j: int| 0 <= j < i ==> is_press(#[trigger] items[j]) == press,
            i == n || is_press(items[i as int]) != press,
        decreases n - i,
    {
        let e = queue_get(q, i).unwrap();
        if event_is_press(e) != press {
            break;
        }
        i = i + 1;
    }
    proof {
        lemma_leading_exact(items, press, i as int);
    }
    i
}

/// The queue without the first `n` events whose key is in `keys`.
pub open spec fn strip(q: Seq<Queued>, keys: Seq<u16>, n: int) -> Seq<Queued>
    decreases q.len(),
{
    if q.len() == 0 {
        Seq::empty()
    } else {
        let r = strip(q.drop_last(), keys, n);
        if q.len() - 1 < n && keys.contains(q.last().event.key()) {
            r
        } else {
            r.push(q.last())
        }
    }
}

pub(crate) proof fn lemma_strip_len(q: Seq<Queued>, keys: Seq<u16>, n: int)
    ensures
        strip(q, keys, n).len() <= q.len(),
    decreases q.len(),
{
    if q.len() > 0 {
        lemma_strip_len(q.drop_last(), keys, n);
    }
}

/// Removes from the first `n` queued events those whose key is in `keys`.
pub(crate) fn strip_queue(q: &mut EventQueue, keys: &Vec<u16>, n: usize)
    requires
        queue_items(*old(q)).len() <= NUM_FINGERS,
    ensures
        queue_items(*final(q)) == strip(queue_items(*old(q)), keys@, n as int),
{
    let ghost orig = queue_items(*q);
    let len = queue_len(q);
    let mut i: usize = 0;
    while i < len
        invariant
            len == orig.len(),
            len <= NUM_FINGERS,
            0 <= i <= len,
            queue_items(*q) == orig.subrange(i as int, len as int) + strip(
                orig.subrange(0, i as int),
                keys@,
                n as int,
            ),
        decreases len - i,
    {
        proof {
            lemma_sub_push(orig, i as int);
            lemma_strip_len(orig.subrange(0, i as int), keys@, n as int);
            assert(queue_items(*q)[0] == orig[i as int]);
        }
        let e = queue_pop_front(q).unwrap();
        if i < n && vec_contains(keys, event_key(e)) {
        } else {
            queue_push_back(q, e);
        }
        proof {
            let p = orig.subrange(0, i as int + 1);
            assert(p.last() == e);
            assert(queue_items(*q) =~= orig.subrange(i as int + 1, len as int) + strip(
                p,
                keys@,
                n as int,
            ));
        }
        i = i + 1;
    }
    proof {
        assert(orig.subrange(0, len as int) =~= orig);
        assert(queue_items(*q) =~= strip(orig, keys@, n as int));
    }
}

/// The queue after pushing `e`: at capacity the oldest event makes room.
pub open spec fn pushed(q: Seq<Queued>, e: Queued) -> Seq<Queued> {
    if q.len() < NUM_FINGERS {
        q.push(e)
    } else {
        q.drop_first().push(e)
    }
}

/// The event that pushing `e` evicts.
pub open spec fn evicted(q: Seq<Queued>) -> Option<Queued> {
    if q.len() < NUM_FINGERS {
        None
    } else {
        Some(q[0])
    }
}

} // verus!
