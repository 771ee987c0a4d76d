use keyberon_chords::action::{Action, Effect};
use keyberon_chords::catalog::{ChordV2, ChordsForKeys, ReleaseBehaviour};
use keyberon_chords::active::{ActiveChordStatus, VIRTUAL_COORD_BASE};
use keyberon_chords::engine::ChordsV2;
use keyberon_chords::event::{Event, Queued};

const A: u16 = 1;
const B: u16 = 2;
const C: u16 = 3;
const D: u16 = 4;

fn chord(keys: &[u16], pending: u16, disabled: &[u16], rb: ReleaseBehaviour, code: u16) -> ChordV2 {
    ChordV2 {
        action: Action::Tap(Effect(code)),
        participating_keys: keys.to_vec(),
        pending_duration: pending,
        disabled_layers: disabled.to_vec(),
        release_behaviour: rb,
    }
}

fn engine(chords: Vec<ChordV2>) -> ChordsV2 {
    ChordsV2::new(ChordsForKeys::new(chords), 10)
}

fn press(k: u16) -> Queued {
    Queued { event: Event::Press(0, k), since: 0 }
}

fn release(k: u16) -> Queued {
    Queued { event: Event::Release(0, k), since: 0 }
}

#[test]
fn catalog_lists_candidates_in_order() {
    let cat = ChordsForKeys::new(vec![
        chord(&[A, B], 5, &[], ReleaseBehaviour::OnLastRelease, 10),
        chord(&[B, C], 5, &[], ReleaseBehaviour::OnLastRelease, 11),
    ]);
    assert_eq!(cat.len(), 2);
    assert_eq!(cat.candidates_for(B), vec![0, 1]);
    assert_eq!(cat.candidates_for(A), vec![0]);
    assert_eq!(cat.candidates_for(C), vec![1]);
    assert_eq!(cat.candidates_for(9), Vec::<usize>::new());
    assert_eq!(cat.chord(1).action, Action::Tap(Effect(11)));
}

#[test]
fn queue_evicts_oldest_when_full() {
    let mut e = engine(vec![]);
    for k in 0..10u16 {
        assert_eq!(e.push_back_chv2(press(k)), None);
    }
    assert_eq!(e.queue_len(), 10);
    assert_eq!(e.push_back_chv2(press(10)), Some(press(0)));
    assert_eq!(e.push_back_chv2(press(11)), Some(press(1)));
    assert_eq!(e.queue_len(), 10);
}

#[test]
fn exact_match_on_last_release() {
    let mut e = engine(vec![chord(&[A, B], 5, &[], ReleaseBehaviour::OnLastRelease, 10)]);
    e.push_back_chv2(press(A));
    assert!(e.tick_chv2(0).is_empty());
    assert_eq!(e.active_len(), 0);
    e.push_back_chv2(press(B));
    assert!(e.tick_chv2(0).is_empty());
    assert_eq!(e.active_len(), 1);
    assert_eq!(e.queue_len(), 0);
    assert_eq!(e.remaining_keys(0), vec![A, B]);
    assert_eq!(e.active_chord(0), (VIRTUAL_COORD_BASE, ActiveChordStatus::Unread, 0));
}

#[test]
fn exact_match_on_first_release() {
    let mut e = engine(vec![chord(&[A, B], 5, &[], ReleaseBehaviour::OnFirstRelease, 10)]);
    e.push_back_chv2(press(A));
    e.push_back_chv2(press(B));
    assert!(e.tick_chv2(0).is_empty());
    assert_eq!(e.active_len(), 1);
    assert_eq!(e.remaining_keys(0), Vec::<u16>::new());
}

#[test]
fn timeout_fallback_drains_press_and_arms_ignore() {
    let mut e = engine(vec![chord(&[A, B], 5, &[], ReleaseBehaviour::OnLastRelease, 10)]);
    e.push_back_chv2(press(A));
    for _ in 0..4 {
        assert!(e.tick_chv2(0).is_empty());
        assert_eq!(e.ticks_to_ignore(), 0);
    }
    let out = e.tick_chv2(0);
    assert_eq!(out, vec![Queued { event: Event::Press(0, A), since: 5 }]);
    assert_eq!(e.ticks_to_ignore(), 10);
    assert_eq!(e.active_len(), 0);
    assert_eq!(e.queue_len(), 0);
}

#[test]
fn ignore_window_drains_verbatim_and_counts_down() {
    let mut e = engine(vec![chord(&[A, B], 5, &[], ReleaseBehaviour::OnLastRelease, 10)]);
    e.push_back_chv2(press(9));
    assert_eq!(e.tick_chv2(0), vec![Queued { event: Event::Press(0, 9), since: 1 }]);
    assert_eq!(e.ticks_to_ignore(), 10);
    for n in (0..10u16).rev() {
        e.push_back_chv2(press(A));
        e.push_back_chv2(press(B));
        let out = e.tick_chv2(0);
        assert_eq!(
            out,
            vec![
                Queued { event: Event::Press(0, A), since: 1 },
                Queued { event: Event::Press(0, B), since: 1 },
            ]
        );
        assert_eq!(e.ticks_to_ignore(), n);
        assert_eq!(e.active_len(), 0);
    }
    e.push_back_chv2(press(A));
    e.push_back_chv2(press(B));
    assert!(e.tick_chv2(0).is_empty());
    assert_eq!(e.active_len(), 1);
}

#[test]
fn specificity_prefers_larger_chord() {
    let mut e = engine(vec![
        chord(&[A, B], 10, &[], ReleaseBehaviour::OnLastRelease, 20),
        chord(&[A, B, C], 10, &[], ReleaseBehaviour::OnLastRelease, 30),
    ]);
    e.push_back_chv2(press(A));
    e.push_back_chv2(press(B));
    e.push_back_chv2(press(C));
    assert!(e.tick_chv2(0).is_empty());
    assert_eq!(e.active_len(), 1);
    assert_eq!(e.remaining_keys(0), vec![A, B, C]);
    let (delivered, also_release) = e.get_action_chv2();
    assert_eq!(delivered, Some(((0, VIRTUAL_COORD_BASE), 0, Action::Tap(Effect(30)))));
    assert!(!also_release);
}

#[test]
fn equal_size_tie_goes_to_first_defined() {
    let mut e = engine(vec![
        chord(&[A, B], 10, &[], ReleaseBehaviour::OnLastRelease, 20),
        chord(&[B, A], 10, &[], ReleaseBehaviour::OnLastRelease, 21),
    ]);
    e.push_back_chv2(press(A));
    e.push_back_chv2(press(B));
    e.tick_chv2(0);
    let (delivered, _) = e.get_action_chv2();
    assert_eq!(delivered, Some(((0, VIRTUAL_COORD_BASE), 0, Action::Tap(Effect(20)))));
}

#[test]
fn first_release_protocol() {
    let mut e = engine(vec![chord(&[A, B], 5, &[], ReleaseBehaviour::OnFirstRelease, 10)]);
    e.push_back_chv2(press(A));
    e.push_back_chv2(press(B));
    e.tick_chv2(0);
    e.push_back_chv2(release(B));
    assert!(e.tick_chv2(0).is_empty());
    assert_eq!(e.active_chord(0).1, ActiveChordStatus::UnreadReleased);
    let (delivered, also_release) = e.get_action_chv2();
    assert_eq!(delivered, Some(((0, VIRTUAL_COORD_BASE), 1, Action::Tap(Effect(10)))));
    assert!(also_release);
    assert_eq!(e.active_chord(0).1, ActiveChordStatus::Released);
    let out = e.tick_chv2(0);
    assert_eq!(out, vec![Queued { event: Event::Release(0, VIRTUAL_COORD_BASE), since: 0 }]);
    assert_eq!(e.active_len(), 0);
}

#[test]
fn last_release_protocol() {
    let mut e = engine(vec![chord(&[A, B], 5, &[], ReleaseBehaviour::OnLastRelease, 10)]);
    e.push_back_chv2(press(A));
    e.push_back_chv2(press(B));
    e.tick_chv2(0);
    let (_, also_release) = e.get_action_chv2();
    assert!(!also_release);
    assert_eq!(e.active_chord(0).1, ActiveChordStatus::Releasable);
    e.push_back_chv2(release(A));
    assert!(e.tick_chv2(0).is_empty());
    assert_eq!(e.remaining_keys(0), vec![B]);
    assert_eq!(e.active_chord(0).1, ActiveChordStatus::Releasable);
    e.push_back_chv2(release(B));
    let out = e.tick_chv2(0);
    assert_eq!(out, vec![Queued { event: Event::Release(0, VIRTUAL_COORD_BASE), since: 0 }]);
    assert_eq!(e.active_len(), 0);
}

#[test]
fn delivery_in_creation_order() {
    let mut e = engine(vec![
        chord(&[A, B], 5, &[], ReleaseBehaviour::OnLastRelease, 20),
        chord(&[C, D], 5, &[], ReleaseBehaviour::OnLastRelease, 30),
    ]);
    e.push_back_chv2(press(A));
    e.push_back_chv2(press(B));
    e.tick_chv2(0);
    e.push_back_chv2(press(C));
    e.push_back_chv2(press(D));
    e.tick_chv2(0);
    assert_eq!(e.active_len(), 2);
    let first = e.get_action_chv2();
    assert_eq!(first, (Some(((0, VIRTUAL_COORD_BASE), 1, Action::Tap(Effect(20)))), false));
    let second = e.get_action_chv2();
    assert_eq!(second, (Some(((0, VIRTUAL_COORD_BASE + 1), 0, Action::Tap(Effect(30)))), false));
    assert_eq!(e.get_action_chv2(), (None, false));
}

#[test]
fn disabled_layer_never_activates() {
    let mut e = engine(vec![chord(&[A, B], 5, &[2], ReleaseBehaviour::OnLastRelease, 10)]);
    e.push_back_chv2(press(A));
    e.push_back_chv2(press(B));
    let out = e.tick_chv2(2);
    assert_eq!(out, vec![Queued { event: Event::Press(0, A), since: 1 }]);
    assert_eq!(e.active_len(), 0);
    assert_eq!(e.ticks_to_ignore(), 10);
    let mut f = engine(vec![chord(&[A, B], 5, &[2], ReleaseBehaviour::OnLastRelease, 10)]);
    f.push_back_chv2(press(A));
    f.push_back_chv2(press(B));
    assert!(f.tick_chv2(1).is_empty());
    assert_eq!(f.active_len(), 1);
}

#[test]
fn virtual_keys_are_forwarded() {
    let mut e = engine(vec![chord(&[A, B], 5, &[], ReleaseBehaviour::OnLastRelease, 10)]);
    e.push_back_chv2(Queued { event: Event::Press(1, A), since: 0 });
    e.push_back_chv2(press(A));
    e.push_back_chv2(Queued { event: Event::Release(1, A), since: 3 });
    let out = e.tick_chv2(0);
    assert_eq!(
        out,
        vec![
            Queued { event: Event::Press(1, A), since: 1 },
            Queued { event: Event::Release(1, A), since: 4 },
        ]
    );
    assert_eq!(e.queue_len(), 1);
}

#[test]
fn key_without_chord_falls_back_at_once() {
    let mut e = engine(vec![chord(&[A, B], 5, &[], ReleaseBehaviour::OnLastRelease, 10)]);
    e.push_back_chv2(press(C));
    e.push_back_chv2(press(A));
    let out = e.tick_chv2(0);
    assert_eq!(out, vec![Queued { event: Event::Press(0, C), since: 1 }]);
    assert_eq!(e.ticks_to_ignore(), 10);
    assert_eq!(e.queue_len(), 1);
}

#[test]
fn leading_releases_are_consumed() {
    let mut e = engine(vec![chord(&[A, B], 5, &[], ReleaseBehaviour::OnLastRelease, 10)]);
    e.push_back_chv2(release(C));
    e.push_back_chv2(press(A));
    assert!(e.tick_chv2(0).is_empty());
    assert_eq!(e.queue_len(), 1);
}

#[test]
fn age_counts_ticks_since_activation() {
    let mut e = engine(vec![chord(&[A, B], 5, &[], ReleaseBehaviour::OnLastRelease, 10)]);
    e.push_back_chv2(press(A));
    e.push_back_chv2(press(B));
    e.tick_chv2(0);
    e.tick_chv2(0);
    e.tick_chv2(0);
    assert_eq!(e.active_chord(0).2, 2);
    let (delivered, _) = e.get_action_chv2();
    assert_eq!(delivered, Some(((0, VIRTUAL_COORD_BASE), 2, Action::Tap(Effect(10)))));
}

#[test]
fn freed_coordinate_is_reused() {
    let mut e = engine(vec![
        chord(&[A, B], 5, &[], ReleaseBehaviour::OnFirstRelease, 20),
        chord(&[C, D], 5, &[], ReleaseBehaviour::OnFirstRelease, 30),
    ]);
    e.push_back_chv2(press(A));
    e.push_back_chv2(press(B));
    e.tick_chv2(0);
    e.push_back_chv2(press(C));
    e.push_back_chv2(press(D));
    e.tick_chv2(0);
    assert_eq!(e.active_chord(1).0, VIRTUAL_COORD_BASE + 1);
    e.get_action_chv2();
    e.push_back_chv2(release(A));
    let out = e.tick_chv2(0);
    assert_eq!(out, vec![Queued { event: Event::Release(0, VIRTUAL_COORD_BASE), since: 0 }]);
    e.push_back_chv2(press(A));
    e.push_back_chv2(press(B));
    e.tick_chv2(0);
    assert_eq!(e.active_len(), 2);
    assert_eq!(e.active_chord(1).0, VIRTUAL_COORD_BASE);
}

#[test]
fn empty_engine_tick_is_quiet() {
    let mut e = engine(vec![chord(&[A, B], 5, &[], ReleaseBehaviour::OnLastRelease, 10)]);
    assert!(e.tick_chv2(0).is_empty());
    assert_eq!(e.get_action_chv2(), (None, false));
    assert_eq!(e.queue_len(), 0);
    assert_eq!(e.active_len(), 0);
    assert_eq!(e.ticks_to_ignore(), 0);
}

#[test]
fn full_queue_drains_within_bound() {
    let mut e = engine(vec![chord(&[A, B], 5, &[], ReleaseBehaviour::OnLastRelease, 10)]);
    e.push_back_chv2(press(9));
    e.tick_chv2(0);
    for k in 0..12u16 {
        e.push_back_chv2(Queued { event: Event::Press(1, k), since: 0 });
    }
    let out = e.tick_chv2(0);
    assert_eq!(out.len(), 10);
    assert_eq!(out[0], Queued { event: Event::Press(1, 2), since: 1 });
    assert_eq!(out[9], Queued { event: Event::Press(1, 11), since: 1 });
}
