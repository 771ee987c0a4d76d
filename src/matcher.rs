//! The chord matcher: consumes the releases at the head of the queue and makes
//! one attempt to match the presses behind them against the catalog.
use vstd::prelude::*;
use heapless::Vec as HVec;
use crate::event::Queued;
use crate::catalog::{ChordV2, ChordsForKeys, ReleaseBehaviour, candidates};
use crate::containers::{
    EventQueue, NUM_FINGERS, chord_items, chords_len, chords_push, key_items, keys_new, keys_push,
    queue_get, queue_items, queue_len, queue_pop_front,
};
use crate::queue::{
    count_leading, event_key, keys_of, leading, lemma_leading_props, lemma_strip_len,
    lemma_sub_push, strip, strip_queue,
};
use crate::active::{
    ActiveChord, ActiveChordStatus, ActiveModel, all_ok, apply_releases, chord_ok, free_coordinate,
    free_from, models, release_in_all, vec_contains,
};

verus! {

/// Consumes the releases at the head of the queue, applying each to the
/// active chords.
pub(crate) fn drain_releases_at_start_of_queue(
    q: &mut EventQueue,
    v: &mut HVec<ActiveChord, 10>,
    cat: &ChordsForKeys,
)
    requires
        queue_items(*old(q)).len() <= NUM_FINGERS,
        chord_items(*old(v)).len() <= NUM_FINGERS,
        all_ok(cat.defs(), models(chord_items(*old(v)))),
    ensures
        queue_items(*final(q)) == queue_items(*old(q)).skip(
            leading(queue_items(*old(q)), false) as int,
        ),
        models(chord_items(*final(v))) == apply_releases(
            cat.defs(),
            models(chord_items(*old(v))),
            keys_of(queue_items(*old(q)).take(leading(queue_items(*old(q)), false) as int)),
        ),
        chord_items(*final(v)).len() == chord_items(*old(v)).len(),
        all_ok(cat.defs(), models(chord_items(*final(v)))),
        queue_items(*final(q)).len() <= queue_items(*old(q)).len(),
{
    let ghost orig = queue_items(*q);
    let ghost v0 = models(chord_items(*v));
    let n_rel = count_leading(q, false);
    let n = queue_len(q);
    proof {
        lemma_leading_props(orig, false);
    }
    let mut i: usize = 0;
    while i < n_rel
        invariant
            n == orig.len(),
            n_rel <= n,
            0 <= i <= n_rel,
            queue_items(*q) == orig.subrange(i as int, n as int),
            chord_items(*v).len() <= NUM_FINGERS,
            chord_items(*v).len() == v0.len(),
            all_ok(cat.defs(), models(chord_items(*v))),
            models(chord_items(*v)) == apply_releases(
                cat.defs(),
                v0,
                keys_of(orig.subrange(0, i as int)),
            ),
        decreases n_rel - i,
    {
        proof {
            lemma_sub_push(orig, i as int);
        }
        let e = queue_pop_front(q).unwrap();
        let key = event_key(e);
        release_in_all(v, key, cat);
        proof {
            let ks = keys_of(orig.subrange(0, i as int + 1));
            assert(ks.drop_last() =~= keys_of(orig.subrange(0, i as int)));
            assert(ks.last() == key);
        }
        i = i + 1;
    }
    proof {
        assert(orig.subrange(0, n_rel as int) =~= orig.take(n_rel as int));
        assert(orig.subrange(n_rel as int, n as int) =~= orig.skip(n_rel as int));
    }
}

/// Whether key `k` is among the first `n` events.
pub open spec fn in_run(q: Seq<Queued>, n: int, k: u16) -> bool {
    exists|i: int| 0 <= i < n && #[trigger] q[i].event.key() == k
}

/// The chord may activate on `layer`.
pub open spec fn enabled(c: ChordV2, layer: u16) -> bool {
    !c.disabled_layers@.contains(layer)
}

/// Every participant of the chord is among the first `n` presses.
pub open spec fn satisfied(c: ChordV2, q: Seq<Queued>, n: int) -> bool {
    c.participating_keys@.len() <= NUM_FINGERS && forall|j: int|
        0 <= j < c.participating_keys@.len() ==> in_run(q, n, #[trigger] c.participating_keys@[j])
}

/// The chord could still complete: each of the first `n` presses is one of
/// its participants, and its window has not elapsed since the oldest of them.
pub open spec fn within(c: ChordV2, q: Seq<Queued>, n: int) -> bool {
    (forall|i: int| 0 <= i < n ==> c.participating_keys@.contains(#[trigger] q[i].event.key()))
        && q[0].since < c.pending_duration
}

/// Candidate `c` is enabled on `layer` and satisfied by the first `n` presses.
pub open spec fn eligible(cat: Seq<ChordV2>, c: usize, layer: u16, q: Seq<Queued>, n: int) -> bool {
    c < cat.len() && enabled(cat[c as int], layer) && satisfied(cat[c as int], q, n)
}

/// Among the candidates `cl`, the eligible chord with the most participants,
/// the earliest one on a tie.
pub open spec fn best(cat: Seq<ChordV2>, cl: Seq<usize>, layer: u16, q: Seq<Queued>, n: int) -> Option<
    usize,
>
    decreases cl.len(),
{
    if cl.len() == 0 {
        None
    } else {
        let b = best(cat, cl.drop_last(), layer, q, n);
        let c = cl.last();
        if eligible(cat, c, layer, q, n) && (b is None || cat[c as int].participating_keys@.len()
            > cat[b->0 as int].participating_keys@.len()) {
            Some(c)
        } else {
            b
        }
    }
}

/// Some enabled candidate could still complete.
pub open spec fn any_pending(
    cat: Seq<ChordV2>,
    cl: Seq<usize>,
    layer: u16,
    q: Seq<Queued>,
    n: int,
) -> bool {
    exists|p: int|
        0 <= p < cl.len() && cl[p] < cat.len() && enabled(cat[cl[p] as int], layer) && within(
            #[trigger] cat[cl[p] as int],
            q,
            n,
        )
}

/// The active chord created when chord `c` matches.
pub open spec fn new_chord(cat: Seq<ChordV2>, c: usize, coord: u16) -> ActiveModel {
    ActiveModel {
        coordinate: coord,
        remaining: if cat[c as int].release_behaviour == ReleaseBehaviour::OnFirstRelease {
            Seq::empty()
        } else {
            cat[c as int].participating_keys@
        },
        chord: c as int,
        status: ActiveChordStatus::Unread,
        delay: 0,
    }
}

/// What one matching attempt decides.
pub enum MatchOutcome {
    /// No press waits at the head of the queue.
    Idle,
    /// A chord may still complete: keep waiting.
    Wait,
    /// Activate this chord under this virtual coordinate.
    Activate(usize, u16),
    /// Give up: no enabled candidate can complete any more, or the best one
    /// finds no room in the active chord table; the oldest press leaves as an
    /// ordinary keystroke.
    Fallback,
}

/// What a matching attempt decides on queue `q`, whose head was cleared of
/// releases.
pub open spec fn match_outcome(
    cat: Seq<ChordV2>,
    layer: u16,
    q: Seq<Queued>,
    active: Seq<ActiveModel>,
) -> MatchOutcome {
    let n = leading(q, true) as int;
    if n == 0 {
        MatchOutcome::Idle
    } else {
        let cl = candidates(cat, q[0].event.key(), cat.len() as int);
        match best(cat, cl, layer, q, n) {
            Some(c) => match free_from(active, 0) {
                Some(coord) => if active.len() < NUM_FINGERS {
                    MatchOutcome::Activate(c, coord)
                } else {
                    MatchOutcome::Fallback
                },
                None => MatchOutcome::Fallback,
            },
            None => if any_pending(cat, cl, layer, q, n) {
                MatchOutcome::Wait
            } else {
                MatchOutcome::Fallback
            },
        }
    }
}

/// The queue, the active chords and the emitted events after one matching
/// attempt, and whether it gave up.
pub open spec fn match_step(
    cat: Seq<ChordV2>,
    layer: u16,
    q: Seq<Queued>,
    active: Seq<ActiveModel>,
) -> (Seq<Queued>, Seq<ActiveModel>, Seq<Queued>, bool) {
    match match_outcome(cat, layer, q, active) {
        MatchOutcome::Activate(c, coord) => (
            strip(q, cat[c as int].participating_keys@, leading(q, true) as int),
            active.push(new_chord(cat, c, coord)),
            Seq::empty(),
            false,
        ),
        MatchOutcome::Fallback => (q.drop_first(), active, seq![q[0]], true),
        _ => (q, active, Seq::empty(), false),
    }
}

pub(crate) proof fn lemma_best_eligible(
    cat: Seq<ChordV2>,
    cl: Seq<usize>,
    layer: u16,
    q: Seq<Queued>,
    n: int,
)
    ensures
        best(cat, cl, layer, q, n) is Some ==> eligible(cat, best(cat, cl, layer, q, n)->0, layer, q, n),
    decreases cl.len(),
{
    if cl.len() > 0 {
        lemma_best_eligible(cat, cl.drop_last(), layer, q, n);
    }
}

fn run_contains(q: &EventQueue, n: usize, k: u16) -> (r: bool)
    requires
        n <= queue_items(*q).len(),
    ensures
        r == in_run(queue_items(*q), n as int, k),
{
    let mut i: usize = 0;
    while i < n
        invariant
            n <= queue_items(*q).len(),
            0 <= i <= n,
            forall|j: int| 0 <= j < i ==> #[trigger] queue_items(*q)[j].event.key() != k,
        decreases n - i,
    {
        let e = queue_get(q, i).unwrap();
        if event_key(e) == k {
            return true;
        }
        i = i + 1;
    }
    false
}

fn chord_satisfied(c: &ChordV2, q: &EventQueue, n: usize) -> (r: bool)
    requires
        n <= queue_items(*q).len(),
    ensures
        r == satisfied(*c, queue_items(*q), n as int),
{
    let m = c.participating_keys.len();
    if m > NUM_FINGERS {
        return false;
    }
    let mut j: usize = 0;
    while j < m
        invariant
            m == c.participating_keys@.len(),
            n <= queue_items(*q).len(),
            0 <= j <= m,
            forall|i: int|
                0 <= i < j ==> in_run(queue_items(*q), n as int, #[trigger] c.participating_keys@[i]),
        decreases m - j,
    {
        if !run_contains(q, n, c.participating_keys[j]) {
            return false;
        }
        j = j + 1;
    }
    true
}

fn chord_within(c: &ChordV2, q: &EventQueue, n: usize) -> (r: bool)
    requires
        0 < n <= queue_items(*q).len(),
    ensures
        r == within(*c, queue_items(*q), n as int),
{
    let mut i: usize = 0;
    while i < n
        invariant
            0 < n <= queue_items(*q).len(),
            0 <= i <= n,
            forall|j: int|
                0 <= j < i ==> c.participating_keys@.contains(#[trigger] queue_items(*q)[j].event.key()),
        decreases n - i,
    {
        let e = queue_get(q, i).unwrap();
        if !vec_contains(&c.participating_keys, event_key(e)) {
            return false;
        }
        i = i + 1;
    }
    let head = queue_get(q, 0).unwrap();
    head.since < c.pending_duration
}

fn copy_keys(keys: &Vec<u16>) -> (r: HVec<u16, 10>)
    requires
        keys@.len() <= NUM_FINGERS,
    ensures
        key_items(r) == keys@,
{
    let mut r = keys_new();
    let n = keys.len();
    let mut i: usize = 0;
    while i < n
        invariant
            n == keys@.len(),
            n <= NUM_FINGERS,
            0 <= i <= n,
            key_items(r) == keys@.subrange(0, i as int),
        decreases n - i,
    {
        keys_push(&mut r, keys[i]);
        proof {
            lemma_sub_push(keys@, i as int);
        }
        i = i + 1;
    }
    proof {
        assert(keys@.subrange(0, n as int) =~= keys@);
    }
    r
}

/// One matching attempt on the presses at the head of the queue. Returns
/// whether it gave up, letting the oldest press go as an ordinary keystroke.
pub(crate) fn process_presses(
    q: &mut EventQueue,
    v: &mut HVec<ActiveChord, 10>,
    cat: &ChordsForKeys,
    layer: u16,
    out: &mut Vec<Queued>,
) -> (r: bool)
    requires
        cat.wf(),
        queue_items(*old(q)).len() <= NUM_FINGERS,
        chord_items(*old(v)).len() <= NUM_FINGERS,
        all_ok(cat.defs(), models(chord_items(*old(v)))),
    ensures
        ({
            let (q2, a2, emitted, gave_up) = match_step(
                cat.defs(),
                layer,
                queue_items(*old(q)),
                models(chord_items(*old(v))),
            );
            queue_items(*final(q)) == q2 && models(chord_items(*final(v))) == a2 && final(out)@
                == old(out)@ + emitted && r == gave_up
        }),
        chord_items(*final(v)).len() <= NUM_FINGERS,
        all_ok(cat.defs(), models(chord_items(*final(v)))),
        queue_items(*final(q)).len() <= queue_items(*old(q)).len(),
{
    let ghost qs = queue_items(*q);
    let ghost act = models(chord_items(*v));
    let ghost defs = cat.defs();
    let n = count_leading(q, true);
    proof {
        lemma_leading_props(qs, true);
    }
    if n == 0 {
        proof {
            assert(out@ =~= out@ + Seq::<Queued>::empty());
        }
        return false;
    }
    let head = queue_get(q, 0).unwrap();
    let cl = cat.candidates_for(event_key(head));
    let mut chosen: Option<usize> = None;
    let mut chosen_len: usize = 0;
    let mut pending = false;
    let m = cl.len();
    let mut i: usize = 0;
    while i < m
        invariant
            queue_items(*q) == qs,
            cat.defs() == defs,
            0 < n <= qs.len(),
            n == leading(qs, true),
            m == cl@.len(),
            cl@ == candidates(defs, qs[0].event.key(), defs.len() as int),
            forall|p: int| 0 <= p < m ==> #[trigger] cl@[p] < defs.len(),
            0 <= i <= m,
            chosen == best(defs, cl@.subrange(0, i as int), layer, qs, n as int),
            chosen is Some ==> chosen->0 < defs.len() && chosen_len
                == defs[chosen->0 as int].participating_keys@.len(),
            pending == any_pending(defs, cl@.subrange(0, i as int), layer, qs, n as int),
        decreases m - i,
    {
        let c = cl[i];
        let def = cat.chord(c);
        let en = !vec_contains(&def.disabled_layers, layer);
        let sat = chord_satisfied(def, q, n);
        let pl = def.participating_keys.len();
        if en && sat && (chosen.is_none() || pl > chosen_len) {
            chosen = Some(c);
            chosen_len = pl;
        }
        let w = chord_within(def, q, n);
        proof {
            let pre = cl@.subrange(0, i as int);
            let post = cl@.subrange(0, i as int + 1);
            lemma_sub_push(cl@, i as int);
            assert(post.last() == c);
            if en && w {
                assert(post[i as int] == c);
                assert(any_pending(defs, post, layer, qs, n as int));
            }
            if any_pending(defs, post, layer, qs, n as int) {
                let p = choose|p: int|
                    0 <= p < post.len() && post[p] < defs.len() && enabled(
                        defs[post[p] as int],
                        layer,
                    ) && within(#[trigger] defs[post[p] as int], qs, n as int);
                if p < i {
                    assert(pre[p] == post[p]);
                    assert(any_pending(defs, pre, layer, qs, n as int));
                }
            }
            if any_pending(defs, pre, layer, qs, n as int) {
                let p = choose|p: int|
                    0 <= p < pre.len() && pre[p] < defs.len() && enabled(defs[pre[p] as int], layer)
                        && within(#[trigger] defs[pre[p] as int], qs, n as int);
                assert(pre[p] == post[p]);
                assert(any_pending(defs, post, layer, qs, n as int));
            }
        }
        pending = pending || (en && w);
        i = i + 1;
    }
    proof {
        assert(cl@.subrange(0, m as int) =~= cl@);
    }
    proof {
        lemma_best_eligible(defs, cl@, layer, qs, n as int);
    }
    match chosen {
        Some(c) => {
            let coord = free_coordinate(v);
            let len = chords_len(v);
            if len < NUM_FINGERS && coord.is_some() {
                let def = cat.chord(c);
                strip_queue(q, &def.participating_keys, n);
                proof {
                    lemma_strip_len(qs, def.participating_keys@, n as int);
                }
                let remaining = if def.release_behaviour == ReleaseBehaviour::OnFirstRelease {
                    keys_new()
                } else {
                    copy_keys(&def.participating_keys)
                };
                let a = ActiveChord {
                    coordinate: coord.unwrap(),
                    remaining_keys_to_release: remaining,
                    chord: c,
                    status: ActiveChordStatus::Unread,
                    delay: 0,
                };
                chords_push(v, a);
                proof {
                    assert(a.model() == new_chord(defs, c, coord.unwrap()));
                    assert(models(chord_items(*v)) =~= act.push(a.model()));
                    assert(out@ =~= out@ + Seq::<Queued>::empty());
                    let s2 = models(chord_items(*v));
                    assert forall|j: int| 0 <= j < s2.len() implies #[trigger] chord_ok(
                        defs,
                        s2[j],
                    ) by {
                        if j < act.len() {
                            assert(s2[j] == act[j]);
                        }
                    }
                }
                false
            } else {
                let e = queue_pop_front(q).unwrap();
                out.push(e);
                true
            }
        },
        None => {
            if pending {
                proof {
                    assert(out@ =~= out@ + Seq::<Queued>::empty());
                }
                false
            } else {
                let e = queue_pop_front(q).unwrap();
                out.push(e);
                true
            }
        },
    }
}

/// One matching attempt emits at most one event, and only when presses wait
/// at the head of the queue; it adds at most one chord, which is undelivered.
pub(crate) proof fn lemma_match_step_size(
    cat: Seq<ChordV2>,
    layer: u16,
    q: Seq<Queued>,
    active: Seq<ActiveModel>,
)
    ensures
        match_step(cat, layer, q, active).2.len() <= 1,
        match_step(cat, layer, q, active).2.len() == 1 ==> q.len() >= 1,
        match_step(cat, layer, q, active).1 == active || (match_step(cat, layer, q, active).1
            == active.push(match_step(cat, layer, q, active).1.last()) && match_step(
            cat,
            layer,
            q,
            active,
        ).1.last().status == ActiveChordStatus::Unread),
{
    lemma_leading_props(q, true);
    match match_outcome(cat, layer, q, active) {
        MatchOutcome::Activate(c, coord) => {
            assert(active.push(new_chord(cat, c, coord)).last() == new_chord(cat, c, coord));
        },
        _ => {},
    }
}

} // verus!
