//! The chord engine: the catalog, the event queue, the active chords and the
//! ignore window, driven by push, tick and delivery.
use vstd::prelude::*;
use heapless::Vec as HVec;
use crate::event::Queued;
use crate::catalog::{ChordV2, ChordsForKeys};
use crate::containers::{
    EventQueue, NUM_FINGERS, chord_items, chords_insert, chords_len, chords_new, chords_remove,
    chords_slice, keys_slice, queue_items, queue_len, queue_new, queue_push_back,
};
use crate::queue::{
    age_queue, aged_events, drain_all, drain_virtual_keys, evicted, keys_of, leading,
    lemma_physical_len, lemma_sub_push, physical_events, pushed, virtual_events,
};
use crate::active::{
    ActiveChord, ActiveChordStatus, ActiveModel, QueuedAction, age_chords, aged_chords, all_ok,
    apply_releases, chord_ok, clear_released_chords, coords_distinct, is_unread, lemma_aged_ok,
    lemma_first_unread_exact, lemma_unreleased_ok, models, poll_chords, poll_result, released_out,
    unreleased,
};
use crate::matcher::{drain_releases_at_start_of_queue, match_step, process_presses};
use crate::laws::{lemma_poll_coords_distinct, lemma_tick_coords_distinct, lemma_tick_output_bound};

verus! {

/// The mathematical value of the engine's changing state.
pub struct EngineState {
    /// Pending events, oldest first.
    pub queue: Seq<Queued>,
    /// Active chords, oldest first.
    pub active: Seq<ActiveModel>,
    /// Ticks left in the ignore window.
    pub ignore: u16,
}

/// The ignore window must be longer than this many ticks.
pub const MIN_TICKS_IGNORE_CHORD: u16 = 5;

/// Steps of a tick up to the removal of released chords: ageing, then either
/// the verbatim drain of an ignore window, or the drain of virtual keys, the
/// consumption of leading releases and one matching attempt.
pub open spec fn drain_spec(cat: Seq<ChordV2>, configured: u16, s: EngineState, layer: u16) -> (
    EngineState,
    Seq<Queued>,
) {
    let q1 = aged_events(s.queue);
    let a1 = aged_chords(s.active);
    if s.ignore > 0 {
        (EngineState { queue: Seq::empty(), active: a1, ignore: (s.ignore - 1) as u16 }, q1)
    } else {
        let q2 = physical_events(q1);
        let nrel = leading(q2, false) as int;
        let a2 = apply_releases(cat, a1, keys_of(q2.take(nrel)));
        let q3 = q2.skip(nrel);
        let (q4, a3, emitted, gave_up) = match_step(cat, layer, q3, a2);
        (
            EngineState {
                queue: q4,
                active: a3,
                ignore: if gave_up {
                    configured
                } else {
                    0
                },
            },
            virtual_events(q1) + emitted,
        )
    }
}

/// The state after one tick on `layer`, and the events it hands back.
pub open spec fn tick_spec(cat: Seq<ChordV2>, configured: u16, s: EngineState, layer: u16) -> (
    EngineState,
    Seq<Queued>,
) {
    let (s1, out) = drain_spec(cat, configured, s, layer);
    (
        EngineState { queue: s1.queue, active: unreleased(s1.active), ignore: s1.ignore },
        out + released_out(s1.active),
    )
}

/// The chord engine: pending events, the catalog, the active chords and the
/// ignore window.
pub struct ChordsV2 {
    /// Queued inputs that can potentially activate a chord but have not yet.
    queue: EventQueue,
    /// What chords are possible and what keys they are associated with.
    chords: ChordsForKeys,
    /// Chords that are active, i.e. ones that have not yet been released.
    active_chords: HVec<ActiveChord, 10>,
    /// Ticks left during which keys cannot activate chords and are forwarded
    /// directly.
    ticks_to_ignore_chord: u16,
    /// Value the above is set to when a press leaves without a chord.
    configured_ticks_to_ignore_chord: u16,
}

impl ChordsV2 {
    /// The changing state: queue, active chords and ignore window.
    pub closed spec fn state(&self) -> EngineState {
        EngineState {
            queue: queue_items(self.queue),
            active: models(chord_items(self.active_chords)),
            ignore: self.ticks_to_ignore_chord,
        }
    }

    /// The chord definitions, in catalog order.
    pub closed spec fn catalog(&self) -> Seq<ChordV2> {
        self.chords.defs()
    }

    /// The length the ignore window is armed to.
    pub closed spec fn configured(&self) -> u16 {
        self.configured_ticks_to_ignore_chord
    }

    /// The engine's invariant.
    pub closed spec fn wf(&self) -> bool {
        &&& self.chords.wf()
        &&& queue_items(self.queue).len() <= NUM_FINGERS
        &&& chord_items(self.active_chords).len() <= NUM_FINGERS
        &&& all_ok(self.chords.defs(), models(chord_items(self.active_chords)))
        &&& self.configured_ticks_to_ignore_chord > MIN_TICKS_IGNORE_CHORD
        &&& coords_distinct(models(chord_items(self.active_chords)))
    }

    /// An engine over the catalog `chords`, with an ignore window of
    /// `ticks_ignore_chord` ticks.
    pub fn new(chords: ChordsForKeys, ticks_ignore_chord: u16) -> (r: Self)
        requires
            chords.wf(),
            ticks_ignore_chord > MIN_TICKS_IGNORE_CHORD,
        ensures
            r.wf(),
            r.catalog() == chords.defs(),
            r.configured() == ticks_ignore_chord,
            r.state().queue == Seq::<Queued>::empty(),
            r.state().active == Seq::<ActiveModel>::empty(),
            r.state().ignore == 0,
    {
        let r = ChordsV2 {
            queue: queue_new(),
            chords,
            active_chords: chords_new(),
            ticks_to_ignore_chord: 0,
            configured_ticks_to_ignore_chord: ticks_ignore_chord,
        };
        proof {
            assert(models(chord_items(r.active_chords)) =~= Seq::<ActiveModel>::empty());
        }
        r
    }

    /// Queues one event; at capacity the oldest queued event is evicted and
    /// returned.
    pub fn push_back_chv2(&mut self, item: Queued) -> (r: Option<Queued>)
        requires
            old(self).wf(),
        ensures
            final(self).wf(),
            final(self).catalog() == old(self).catalog(),
            final(self).configured() == old(self).configured(),
            final(self).state().queue == pushed(old(self).state().queue, item),
            final(self).state().active == old(self).state().active,
            final(self).state().ignore == old(self).state().ignore,
            r == evicted(old(self).state().queue),
            final(self).state().queue.len() <= NUM_FINGERS,
    {
        queue_push_back(&mut self.queue, item)
    }

    /// Delivers the oldest active chord not yet delivered, if any: its virtual
    /// coordinate, age and action, and whether it is already released.
    pub fn get_action_chv2(&mut self) -> (r: (QueuedAction, bool))
        requires
            old(self).wf(),
        ensures
            final(self).wf(),
            final(self).catalog() == old(self).catalog(),
            final(self).configured() == old(self).configured(),
            r == poll_result(old(self).catalog(), old(self).state().active),
            final(self).state().active == poll_chords(old(self).state().active),
            final(self).state().queue == old(self).state().queue,
            final(self).state().ignore == old(self).state().ignore,
    {
        let ghost s = models(chord_items(self.active_chords));
        let sl = chords_slice(&self.active_chords);
        let n = sl.len();
        let mut i: usize = 0;
        while i < n
            invariant
                sl@ == chord_items(self.active_chords),
                s == models(chord_items(self.active_chords)),
                n == s.len(),
                0 <= i <= n,
                forall|j: int| 0 <= j < i ==> !is_unread(#[trigger] s[j]),
            ensures
                0 <= i <= n,
                forall|j: int| 0 <= j < i ==> !is_unread(#[trigger] s[j]),
                i == n || is_unread(s[i as int]),
            decreases n - i,
        {
            let st = sl[i].status;
            proof {
                assert(s[i as int].status == st);
            }
            if st == ActiveChordStatus::Unread || st == ActiveChordStatus::UnreadReleased {
                break;
            }
            i = i + 1;
        }
        proof {
            lemma_first_unread_exact(s, i as int);
            lemma_poll_coords_distinct(s);
        }
        if i == n {
            return (None, false);
        }
        let ghost before = chord_items(self.active_chords);
        let mut a = chords_remove(&mut self.active_chords, i);
        let also_release = a.status == ActiveChordStatus::UnreadReleased;
        a.status = if also_release {
            ActiveChordStatus::Released
        } else {
            ActiveChordStatus::Releasable
        };
        let coordinate = a.coordinate;
        let delay = a.delay;
        proof {
            assert(chord_ok(self.chords.defs(), s[i as int]));
        }
        let action = self.chords.chord(a.chord).action;
        let ghost a2 = a;
        chords_insert(&mut self.active_chords, i, a);
        proof {
            assert(chord_items(self.active_chords) =~= before.update(i as int, a2));
            assert(models(chord_items(self.active_chords)) =~= poll_chords(s));
            let s2 = models(chord_items(self.active_chords));
            assert forall|j: int| 0 <= j < s2.len() implies #[trigger] chord_ok(
                self.chords.defs(),
                s2[j],
            ) by {
                assert(chord_ok(self.chords.defs(), s[j]));
            }
        }
        (Some(((0, coordinate), delay, action)), also_release)
    }

    /// After ageing: either the verbatim drain of an open ignore window, or the
    /// drain of virtual keys, the consumption of leading releases and one
    /// matching attempt.
    fn drain_inputs(&mut self, out: &mut Vec<Queued>, active_layer: u16, s0: Ghost<EngineState>)
        requires
            old(self).chords.wf(),
            queue_items(old(self).queue).len() <= NUM_FINGERS,
            chord_items(old(self).active_chords).len() <= NUM_FINGERS,
            all_ok(old(self).chords.defs(), models(chord_items(old(self).active_chords))),
            old(out)@ == Seq::<Queued>::empty(),
            queue_items(old(self).queue) == aged_events(s0@.queue),
            models(chord_items(old(self).active_chords)) == aged_chords(s0@.active),
            old(self).ticks_to_ignore_chord == s0@.ignore,
        ensures
            final(self).chords == old(self).chords,
            final(self).configured_ticks_to_ignore_chord == old(self).configured_ticks_to_ignore_chord,
            (final(self).state(), final(out)@) == drain_spec(
                old(self).chords.defs(),
                old(self).configured_ticks_to_ignore_chord,
                s0@,
                active_layer,
            ),
            queue_items(final(self).queue).len() <= NUM_FINGERS,
            chord_items(final(self).active_chords).len() <= NUM_FINGERS,
            all_ok(old(self).chords.defs(), models(chord_items(final(self).active_chords))),
    {
        let ghost cat = self.chords.defs();
        let ghost s0 = s0@;
        if self.ticks_to_ignore_chord > 0 {
            drain_all(&mut self.queue, out);
            self.ticks_to_ignore_chord = self.ticks_to_ignore_chord - 1;
            proof {
                assert(out@ =~= aged_events(s0.queue));
            }
        } else {
            proof {
                lemma_physical_len(queue_items(self.queue));
            }
            drain_virtual_keys(&mut self.queue, out);
            drain_releases_at_start_of_queue(&mut self.queue, &mut self.active_chords, &self.chords);
            let gave_up = process_presses(
                &mut self.queue,
                &mut self.active_chords,
                &self.chords,
                active_layer,
                out,
            );
            if gave_up {
                self.ticks_to_ignore_chord = self.configured_ticks_to_ignore_chord;
            }
            proof {
                assert(out@ =~= virtual_events(aged_events(s0.queue)) + match_step(
                    cat,
                    active_layer,
                    physical_events(aged_events(s0.queue)).skip(
                        leading(physical_events(aged_events(s0.queue)), false) as int,
                    ),
                    apply_releases(
                        cat,
                        aged_chords(s0.active),
                        keys_of(
                            physical_events(aged_events(s0.queue)).take(
                                leading(physical_events(aged_events(s0.queue)), false) as int,
                            ),
                        ),
                    ),
                ).2);
            }
        }
    }

    /// Advances the engine by one tick on `active_layer`. Returns the events
    /// that leave without forming a chord, and the releases of the chords
    /// removed, in order.
    pub fn tick_chv2(&mut self, active_layer: u16) -> (r: Vec<Queued>)
        requires
            old(self).wf(),
        ensures
            final(self).wf(),
            final(self).catalog() == old(self).catalog(),
            final(self).configured() == old(self).configured(),
            (final(self).state(), r@) == tick_spec(
                old(self).catalog(),
                old(self).configured(),
                old(self).state(),
                active_layer,
            ),
            r@.len() <= 2 * NUM_FINGERS,
    {
        let ghost s0 = self.state();
        proof {
            lemma_tick_coords_distinct(
                self.chords.defs(),
                self.configured_ticks_to_ignore_chord,
                s0,
                active_layer,
            );
            lemma_tick_output_bound(
                self.chords.defs(),
                self.configured_ticks_to_ignore_chord,
                s0,
                active_layer,
            );
        }
        let ghost cat = self.chords.defs();
        let mut out: Vec<Queued> = Vec::new();
        age_queue(&mut self.queue);
        age_chords(&mut self.active_chords);
        proof {
            lemma_aged_ok(cat, s0.active);
        }
        self.drain_inputs(&mut out, active_layer, Ghost(s0));
        let ghost s1 = self.state();
        proof {
            lemma_unreleased_ok(cat, s1.active);
        }
        clear_released_chords(&mut self.active_chords, &mut out);
        proof {
            assert(models(chord_items(self.active_chords)).len() == chord_items(
                self.active_chords,
            ).len());
        }
        out
    }
}

impl ChordsV2 {
    /// The number of queued events.
    pub fn queue_len(&self) -> (r: usize)
        ensures
            r as int == self.state().queue.len(),
    {
        queue_len(&self.queue)
    }

    /// Ticks left in the ignore window.
    pub fn ticks_to_ignore(&self) -> (r: u16)
        ensures
            r == self.state().ignore,
    {
        self.ticks_to_ignore_chord
    }

    /// The number of active chords.
    pub fn active_len(&self) -> (r: usize)
        ensures
            r as int == self.state().active.len(),
    {
        chords_len(&self.active_chords)
    }

    /// The virtual coordinate, status and age of the active chord at `i`.
    pub fn active_chord(&self, i: usize) -> (r: (u16, ActiveChordStatus, u16))
        requires
            i < self.state().active.len(),
        ensures
            r.0 == self.state().active[i as int].coordinate,
            r.1 == self.state().active[i as int].status,
            r.2 == self.state().active[i as int].delay,
    {
        let sl = chords_slice(&self.active_chords);
        (sl[i].coordinate, sl[i].status, sl[i].delay)
    }

    /// The keys the active chord at `i` still waits to see released.
    pub fn remaining_keys(&self, i: usize) -> (r: Vec<u16>)
        requires
            i < self.state().active.len(),
        ensures
            r@ == self.state().active[i as int].remaining,
    {
        let sl = chords_slice(&self.active_chords);
        let keys = keys_slice(&sl[i].remaining_keys_to_release);
        let mut r: Vec<u16> = Vec::new();
        let n = keys.len();
        let mut j: usize = 0;
        while j < n
            invariant
                n == keys@.len(),
                0 <= j <= n,
                r@ == keys@.subrange(0, j as int),
            decreases n - j,
        {
            r.push(keys[j]);
            proof {
                lemma_sub_push(keys@, j as int);
            }
            j = j + 1;
        }
        proof {
            assert(keys@.subrange(0, n as int) =~= keys@);
        }
        r
    }
}

} // verus!
