use vstd::prelude::*;
use crate::event::Queued;
use crate::catalog::{ChordV2, ReleaseBehaviour, candidates};
use crate::containers::NUM_FINGERS;
use crate::queue::{aged_events, evicted, keys_of, leading, physical_events, pushed, virtual_events};
use crate::active::{
    ActiveChordStatus, ActiveModel, aged_chords, apply_releases, chord_ok, coord_used,
    coords_distinct, first_unread, free_from, is_unread, poll_chords, poll_result, release_all,
    release_event, release_one, released_out, slot_used, unreleased,
};
use crate::matcher::{
    MatchOutcome, best, eligible, lemma_best_eligible, lemma_match_step_size, match_outcome,
    match_step, new_chord,
};
use crate::engine::{EngineState, drain_spec, tick_spec};

verus! {

// ---------------------------------------------------------------------------
// Queue bound.
/// The queue after pushing `es` in order.
pub open spec fn pushed_all(q: Seq<Queued>, es: Seq<Queued>) -> Seq<Queued>
    decreases es.len(),
{
    if es.len() == 0 {
        q
    } else {
        pushed(pushed_all(q, es.drop_last()), es.last())
    }
}

/// However many events are pushed, the queue never holds more than
/// `NUM_FINGERS` of them.
pub proof fn lemma_queue_bound(q: Seq<Queued>, es: Seq<Queued>)
    requires
        q.len() <= NUM_FINGERS,
    ensures
        pushed_all(q, es).len() <= NUM_FINGERS,
    decreases es.len(),
{
    if es.len() > 0 {
        lemma_queue_bound(q, es.drop_last());
    }
}

/// A push onto a full queue evicts its oldest event, which is the one
/// returned; a push onto any other queue evicts nothing.
pub proof fn lemma_queue_eviction(q: Seq<Queued>, e: Queued)
    requires
        q.len() <= NUM_FINGERS,
    ensures
        q.len() == NUM_FINGERS ==> evicted(q) == Some(q[0]) && pushed(q, e) == q.drop_first().push(
            e,
        ),
        q.len() < NUM_FINGERS ==> evicted(q) is None && pushed(q, e) == q.push(e),
{
}

// ---------------------------------------------------------------------------
// Ignore window.
/// The state after ticking once on each layer of `layers`, in order.
pub open spec fn ticks_spec(
    cat: Seq<ChordV2>,
    configured: u16,
    s: EngineState,
    layers: Seq<u16>,
) -> EngineState
    decreases layers.len(),
{
    if layers.len() == 0 {
        s
    } else {
        tick_spec(cat, configured, ticks_spec(cat, configured, s, layers.drop_last()), layers.last()).0
    }
}

/// While the ignore window is open, a tick hands back the whole queue as it
/// stood, each event unchanged but one tick older, ahead of anything else,
/// leaves the queue empty, and counts the window down by exactly one.
pub proof fn lemma_ignore_window_tick(
    cat: Seq<ChordV2>,
    configured: u16,
    s: EngineState,
    layer: u16,
)
    requires
        s.ignore > 0,
    ensures
        tick_spec(cat, configured, s, layer).0.ignore == s.ignore - 1,
        tick_spec(cat, configured, s, layer).0.queue.len() == 0,
        tick_spec(cat, configured, s, layer).1.take(s.queue.len() as int) == aged_events(s.queue),
        forall|i: int|
            0 <= i < s.queue.len() ==> (#[trigger] tick_spec(cat, configured, s, layer).1[i]).event
                == s.queue[i].event,
{
    let out = tick_spec(cat, configured, s, layer).1;
    let q1 = aged_events(s.queue);
    assert(out.take(s.queue.len() as int) =~= q1);
    assert forall|i: int| 0 <= i < s.queue.len() implies (#[trigger] out[i]).event
        == s.queue[i].event by {
        assert(out[i] == q1[i]);
    }
}

/// Once the window is armed to `n`, the next `n` ticks each fall inside it:
/// after `k <= n` ticks, `n - k` ticks of it remain.
pub proof fn lemma_ignore_window_countdown(
    cat: Seq<ChordV2>,
    configured: u16,
    s: EngineState,
    layers: Seq<u16>,
)
    requires
        layers.len() <= s.ignore,
    ensures
        ticks_spec(cat, configured, s, layers).ignore == s.ignore - layers.len(),
    decreases layers.len(),
{
    if layers.len() > 0 {
        lemma_ignore_window_countdown(cat, configured, s, layers.drop_last());
        let t = ticks_spec(cat, configured, s, layers.drop_last());
        lemma_ignore_window_tick(cat, configured, t, layers.last());
    }
}

// ---------------------------------------------------------------------------
// Release protocol.
/// Releasing any participating key of a chord that is released on the first
/// release and not yet delivered makes it `UnreadReleased`.
pub proof fn lemma_first_release(cat: Seq<ChordV2>, a: ActiveModel, k: u16)
    requires
        chord_ok(cat, a),
        cat[a.chord].release_behaviour == ReleaseBehaviour::OnFirstRelease,
        a.status == ActiveChordStatus::Unread,
        cat[a.chord].participating_keys@.contains(k),
    ensures
        release_one(cat, a, k).status == ActiveChordStatus::UnreadReleased,
{
}

/// When the oldest undelivered chord is `UnreadReleased`, the delivery
/// reports it as released at once and marks it `Released`.
pub proof fn lemma_deliver_released(cat: Seq<ChordV2>, s: Seq<ActiveModel>, i: int)
    requires
        0 <= i < s.len(),
        first_unread(s) == i,
        s[i].status == ActiveChordStatus::UnreadReleased,
    ensures
        poll_result(cat, s).1,
        poll_result(cat, s).0 is Some,
        poll_chords(s)[i].status == ActiveChordStatus::Released,
        poll_chords(s)[i].coordinate == s[i].coordinate,
{
}

proof fn lemma_releases_keep_released(
    cat: Seq<ChordV2>,
    s: Seq<ActiveModel>,
    keys: Seq<u16>,
    i: int,
)
    requires
        0 <= i < s.len(),
        s[i].status == ActiveChordStatus::Released,
    ensures
        apply_releases(cat, s, keys).len() == s.len(),
        apply_releases(cat, s, keys)[i].status == ActiveChordStatus::Released,
        apply_releases(cat, s, keys)[i].coordinate == s[i].coordinate,
    decreases keys.len(),
{
    if keys.len() > 0 {
        lemma_releases_keep_released(cat, s, keys.drop_last(), i);
        let t = apply_releases(cat, s, keys.drop_last());
        assert(release_all(cat, t, keys.last())[i] == release_one(cat, t[i], keys.last()));
    }
}

proof fn lemma_released_out_contains(s: Seq<ActiveModel>, i: int)
    requires
        0 <= i < s.len(),
        s[i].status == ActiveChordStatus::Released,
    ensures
        released_out(s).contains(release_event(s[i])),
    decreases s.len(),
{
    let r = released_out(s.drop_last());
    if i == s.len() - 1 {
        assert(released_out(s) == r.push(release_event(s[i])));
        assert(released_out(s)[r.len() as int] == release_event(s[i]));
    } else {
        lemma_released_out_contains(s.drop_last(), i);
        assert(s.drop_last()[i] == s[i]);
        let j = choose|j: int| 0 <= j < r.len() && r[j] == release_event(s[i]);
        if s.last().status == ActiveChordStatus::Released {
            assert(released_out(s)[j] == r[j]);
        }
    }
}

proof fn lemma_unreleased_none_released(s: Seq<ActiveModel>)
    ensures
        forall|j: int|
            0 <= j < unreleased(s).len() ==> (#[trigger] unreleased(s)[j]).status
                != ActiveChordStatus::Released,
    decreases s.len(),
{
    if s.len() > 0 {
        lemma_unreleased_none_released(s.drop_last());
        let r = unreleased(s.drop_last());
        assert forall|j: int| 0 <= j < unreleased(s).len() implies (#[trigger] unreleased(
            s,
        )[j]).status != ActiveChordStatus::Released by {
            if j < r.len() {
                assert(unreleased(s)[j] == r[j]);
            }
        }
    }
}

/// A chord in state `Released` is gone after the next tick, which emits the
/// release of its virtual coordinate; no chord left after a tick is
/// `Released`.
pub proof fn lemma_released_chord_removed(
    cat: Seq<ChordV2>,
    configured: u16,
    s: EngineState,
    layer: u16,
    i: int,
)
    requires
        0 <= i < s.active.len(),
        s.active[i].status == ActiveChordStatus::Released,
    ensures
        tick_spec(cat, configured, s, layer).1.contains(release_event(s.active[i])),
        forall|j: int|
            0 <= j < tick_spec(cat, configured, s, layer).0.active.len() ==> (#[trigger] tick_spec(
                cat,
                configured,
                s,
                layer,
            ).0.active[j]).status != ActiveChordStatus::Released,
{
    let a1 = aged_chords(s.active);
    assert(a1[i].status == ActiveChordStatus::Released);
    assert(a1[i].coordinate == s.active[i].coordinate);
    let (s1, out) = drain_spec(cat, configured, s, layer);
    if s.ignore > 0 {
        assert(s1.active == a1);
    } else {
        let q1 = aged_events(s.queue);
        let q2 = physical_events(q1);
        let nrel = leading(q2, false) as int;
        let keys = keys_of(q2.take(nrel));
        lemma_releases_keep_released(cat, a1, keys, i);
        let a2 = apply_releases(cat, a1, keys);
        let q3 = q2.skip(nrel);
        let a3 = match_step(cat, layer, q3, a2).1;
        assert(a3[i] == a2[i]);
    }
    assert(s1.active[i].status == ActiveChordStatus::Released);
    assert(release_event(s1.active[i]) == release_event(s.active[i]));
    lemma_released_out_contains(s1.active, i);
    let full = out + released_out(s1.active);
    let j = choose|j: int|
        0 <= j < released_out(s1.active).len() && released_out(s1.active)[j] == release_event(
            s.active[i],
        );
    assert(full[out.len() + j] == release_event(s.active[i]));
    lemma_unreleased_none_released(s1.active);
}

// ---------------------------------------------------------------------------
// Delivery order.
/// Each delivery hands out the oldest undelivered chord, marks it delivered
/// and changes nothing else, so the next delivery moves strictly further down
/// the table: chords are delivered one per call, in the order they were
/// created, until none is left undelivered.
pub proof fn lemma_delivery_order(cat: Seq<ChordV2>, s: Seq<ActiveModel>)
    ensures
        first_unread(s) <= s.len(),
        first_unread(s) == s.len() ==> poll_result(cat, s).0 is None && poll_chords(s) == s,
        first_unread(s) < s.len() ==> {
            let f = first_unread(s) as int;
            &&& poll_result(cat, s).0 == Some(
                ((0u8, s[f].coordinate), s[f].delay, cat[s[f].chord].action),
            )
            &&& poll_chords(s).len() == s.len()
            &&& !is_unread(poll_chords(s)[f])
            &&& forall|j: int| 0 <= j < s.len() && j != f ==> #[trigger] poll_chords(s)[j] == s[j]
            &&& first_unread(poll_chords(s)) > f
        },
    decreases s.len(),
{
    lemma_first_unread_props(s);
    let f = first_unread(s) as int;
    if f < s.len() {
        let t = poll_chords(s);
        lemma_first_unread_props(t);
        let g = first_unread(t) as int;
        if g <= f {
            assert(t[g] == s[g] || g == f);
        }
    }
}

proof fn lemma_first_unread_props(s: Seq<ActiveModel>)
    ensures
        first_unread(s) <= s.len(),
        forall|j: int| 0 <= j < first_unread(s) ==> !is_unread(#[trigger] s[j]),
        first_unread(s) < s.len() ==> is_unread(s[first_unread(s) as int]),
    decreases s.len(),
{
    if s.len() > 0 && !is_unread(s[0]) {
        let r = s.drop_first();
        lemma_first_unread_props(r);
        assert forall|j: int| 0 <= j < first_unread(s) implies !is_unread(#[trigger] s[j]) by {
            if j > 0 {
                assert(s[j] == r[j - 1]);
            }
        }
        if first_unread(s) < s.len() {
            assert(s[first_unread(s) as int] == r[first_unread(r) as int]);
        }
    }
}

// ---------------------------------------------------------------------------
// Disabled layers.

/// A chord whose disabled layers list the active layer is never the one a
/// matching attempt activates, whatever keys are pressed.
pub proof fn lemma_disabled_layer(
    cat: Seq<ChordV2>,
    layer: u16,
    q: Seq<Queued>,
    active: Seq<ActiveModel>,
)
    ensures
        match_outcome(cat, layer, q, active) matches MatchOutcome::Activate(c, _) ==> c < cat.len()
            && !cat[c as int].disabled_layers@.contains(layer),
{
    let n = leading(q, true) as int;
    if n > 0 {
        let cl = candidates(cat, q[0].event.key(), cat.len() as int);
        lemma_best_eligible(cat, cl, layer, q, n);
    }
}


// ---------------------------------------------------------------------------
// Bounded output.
proof fn lemma_split_len(q: Seq<Queued>)
    ensures
        virtual_events(q).len() + physical_events(q).len() == q.len(),
    decreases q.len(),
{
    if q.len() > 0 {
        lemma_split_len(q.drop_last());
    }
}

proof fn lemma_released_out_len(s: Seq<ActiveModel>)
    ensures
        released_out(s).len() <= s.len(),
    decreases s.len(),
{
    if s.len() > 0 {
        lemma_released_out_len(s.drop_last());
    }
}

proof fn lemma_apply_releases_len(cat: Seq<ChordV2>, s: Seq<ActiveModel>, keys: Seq<u16>)
    ensures
        apply_releases(cat, s, keys).len() == s.len(),
    decreases keys.len(),
{
    if keys.len() > 0 {
        lemma_apply_releases_len(cat, s, keys.drop_last());
    }
}

/// A tick hands back at most the events queued before it plus one release per
/// chord active before it: with both at capacity, at most `2 * NUM_FINGERS`.
pub proof fn lemma_tick_output_bound(
    cat: Seq<ChordV2>,
    configured: u16,
    s: EngineState,
    layer: u16,
)
    ensures
        tick_spec(cat, configured, s, layer).1.len() <= s.queue.len() + s.active.len(),
{
    let q1 = aged_events(s.queue);
    let a1 = aged_chords(s.active);
    let (s1, out) = drain_spec(cat, configured, s, layer);
    if s.ignore > 0 {
        lemma_released_out_len(a1);
    } else {
        let q2 = physical_events(q1);
        let nrel = leading(q2, false) as int;
        let keys = keys_of(q2.take(nrel));
        lemma_apply_releases_len(cat, a1, keys);
        let a2 = apply_releases(cat, a1, keys);
        let q3 = q2.skip(nrel);
        lemma_split_len(q1);
        lemma_match_step_size(cat, layer, q3, a2);
        lemma_released_out_len(a2);
        let step = match_step(cat, layer, q3, a2);
        if step.1 != a2 {
            let x = step.1.last();
            assert(step.1.drop_last() =~= a2);
            assert(x.status == ActiveChordStatus::Unread);
            assert(released_out(step.1) == released_out(a2));
        }
    }
}


// ---------------------------------------------------------------------------
// Distinct virtual coordinates.
proof fn lemma_releases_keep_coords(cat: Seq<ChordV2>, s: Seq<ActiveModel>, keys: Seq<u16>)
    ensures
        apply_releases(cat, s, keys).len() == s.len(),
        forall|i: int|
            0 <= i < s.len() ==> #[trigger] apply_releases(cat, s, keys)[i].coordinate
                == s[i].coordinate,
    decreases keys.len(),
{
    if keys.len() > 0 {
        lemma_releases_keep_coords(cat, s, keys.drop_last());
        let t = apply_releases(cat, s, keys.drop_last());
        assert forall|i: int| 0 <= i < s.len() implies #[trigger] apply_releases(
            cat,
            s,
            keys,
        )[i].coordinate == s[i].coordinate by {
            assert(release_all(cat, t, keys.last())[i] == release_one(cat, t[i], keys.last()));
        }
    }
}

proof fn lemma_free_unused(s: Seq<ActiveModel>, k: int)
    ensures
        free_from(s, k) is Some ==> !coord_used(s, free_from(s, k)->0),
    decreases NUM_FINGERS - k,
{
    if 0 <= k < NUM_FINGERS && slot_used(s, k) {
        lemma_free_unused(s, k + 1);
    }
}

proof fn lemma_unreleased_from(s: Seq<ActiveModel>)
    ensures
        forall|j: int|
            0 <= j < unreleased(s).len() ==> exists|i: int|
                0 <= i < s.len() && s[i] == #[trigger] unreleased(s)[j],
        coords_distinct(s) ==> coords_distinct(unreleased(s)),
    decreases s.len(),
{
    if s.len() > 0 {
        let t = s.drop_last();
        lemma_unreleased_from(t);
        let r = unreleased(t);
        let u = unreleased(s);
        assert forall|j: int| 0 <= j < u.len() implies exists|i: int|
            0 <= i < s.len() && s[i] == #[trigger] u[j] by {
            if j < r.len() {
                assert(u[j] == r[j]);
                let i = choose|i: int| 0 <= i < t.len() && t[i] == r[j];
                assert(s[i] == t[i]);
            } else {
                assert(s[s.len() - 1] == u[j]);
            }
        }
        if coords_distinct(s) {
            assert(coords_distinct(t)) by {
                assert forall|i: int, j: int|
                    0 <= i < t.len() && 0 <= j < t.len() && i != j implies #[trigger] t[i].coordinate
                    != #[trigger] t[j].coordinate by {
                    assert(t[i] == s[i] && t[j] == s[j]);
                }
            }
            assert forall|i: int, j: int|
                0 <= i < u.len() && 0 <= j < u.len() && i != j implies #[trigger] u[i].coordinate
                != #[trigger] u[j].coordinate by {
                if i < r.len() && j < r.len() {
                    assert(u[i] == r[i] && u[j] == r[j]);
                } else if i < r.len() {
                    assert(u[i] == r[i]);
                    let a = choose|a: int| 0 <= a < t.len() && t[a] == r[i];
                    assert(s[a] == t[a]);
                    assert(u[j] == s[s.len() - 1]);
                } else if j < r.len() {
                    assert(u[j] == r[j]);
                    let a = choose|a: int| 0 <= a < t.len() && t[a] == r[j];
                    assert(s[a] == t[a]);
                    assert(u[i] == s[s.len() - 1]);
                }
            }
        }
    }
}

/// A tick keeps the virtual coordinates of the active chords pairwise
/// distinct: a new chord gets one that no active chord uses.
pub proof fn lemma_tick_coords_distinct(
    cat: Seq<ChordV2>,
    configured: u16,
    s: EngineState,
    layer: u16,
)
    requires
        coords_distinct(s.active),
    ensures
        coords_distinct(tick_spec(cat, configured, s, layer).0.active),
{
    let a1 = aged_chords(s.active);
    assert(coords_distinct(a1)) by {
        assert forall|i: int, j: int|
            0 <= i < a1.len() && 0 <= j < a1.len() && i != j implies #[trigger] a1[i].coordinate
            != #[trigger] a1[j].coordinate by {
            assert(a1[i].coordinate == s.active[i].coordinate);
            assert(a1[j].coordinate == s.active[j].coordinate);
        }
    }
    let (s1, out) = drain_spec(cat, configured, s, layer);
    if s.ignore == 0 {
        let q1 = aged_events(s.queue);
        let q2 = physical_events(q1);
        let nrel = leading(q2, false) as int;
        let keys = keys_of(q2.take(nrel));
        lemma_releases_keep_coords(cat, a1, keys);
        let a2 = apply_releases(cat, a1, keys);
        assert(coords_distinct(a2)) by {
            assert forall|i: int, j: int|
                0 <= i < a2.len() && 0 <= j < a2.len() && i != j implies #[trigger] a2[i].coordinate
                != #[trigger] a2[j].coordinate by {
                assert(a2[i].coordinate == a1[i].coordinate);
                assert(a2[j].coordinate == a1[j].coordinate);
            }
        }
        let q3 = q2.skip(nrel);
        match match_outcome(cat, layer, q3, a2) {
            MatchOutcome::Activate(c, coord) => {
                lemma_free_unused(a2, 0);
                let a3 = a2.push(new_chord(cat, c, coord));
                assert(s1.active == a3);
                assert forall|i: int, j: int|
                    0 <= i < a3.len() && 0 <= j < a3.len() && i != j implies #[trigger] a3[i].coordinate
                    != #[trigger] a3[j].coordinate by {
                    if i < a2.len() && j < a2.len() {
                        assert(a3[i] == a2[i] && a3[j] == a2[j]);
                    } else if i < a2.len() {
                        assert(a3[i] == a2[i]);
                    } else {
                        assert(a3[j] == a2[j]);
                    }
                }
            },
            _ => {},
        }
    }
    lemma_unreleased_from(s1.active);
}

/// A delivery keeps the virtual coordinates of the active chords pairwise
/// distinct.
pub proof fn lemma_poll_coords_distinct(s: Seq<ActiveModel>)
    requires
        coords_distinct(s),
    ensures
        coords_distinct(poll_chords(s)),
{
    let t = poll_chords(s);
    assert forall|i: int, j: int|
        0 <= i < t.len() && 0 <= j < t.len() && i != j implies #[trigger] t[i].coordinate
        != #[trigger] t[j].coordinate by {
        assert(t[i].coordinate == s[i].coordinate);
        assert(t[j].coordinate == s[j].coordinate);
    }
}


// ---------------------------------------------------------------------------
// Specificity.
/// Whenever some candidate is eligible, a chord is chosen, and no eligible
/// candidate has more participants than the chosen one: the most specific
/// chord wins.
pub proof fn lemma_most_specific(
    cat: Seq<ChordV2>,
    cl: Seq<usize>,
    layer: u16,
    q: Seq<Queued>,
    n: int,
    p: int,
)
    requires
        0 <= p < cl.len(),
        eligible(cat, cl[p], layer, q, n),
    ensures
        best(cat, cl, layer, q, n) is Some,
        cat[cl[p] as int].participating_keys@.len() <= cat[best(
            cat,
            cl,
            layer,
            q,
            n,
        )->0 as int].participating_keys@.len(),
    decreases cl.len(),
{
    let t = cl.drop_last();
    if p < cl.len() - 1 {
        assert(t[p] == cl[p]);
        lemma_most_specific(cat, t, layer, q, n, p);
    } else if t.len() > 0 {
        lemma_best_eligible(cat, t, layer, q, n);
    }
}


} // verus!
