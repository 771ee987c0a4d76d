//! The active chord table: chords that have matched and are not fully
//! resolved yet, their releases, their delivery and their virtual coordinates.
use vstd::prelude::*;
use heapless::Vec as HVec;
use crate::action::Action;
use crate::event::{Event, Queued};
use crate::catalog::{ChordV2, ChordsForKeys, ReleaseBehaviour};
use crate::containers::{
    NUM_FINGERS, chord_items, chords_len, chords_push, chords_remove, chords_slice, key_items,
    keys_len, keys_new, keys_push, keys_remove,
};
use crate::queue::{lemma_sub_push, sat_inc, sat_inc_u16};

verus! {

/// Where an active chord stands between activation and removal.
#[derive(Clone, Copy, Debug, PartialEq, Eq, Structural)]
pub enum ActiveChordStatus {
    /// Not yet delivered to the layout engine.
    Unread,
    /// All keys released before delivery.
    UnreadReleased,
    /// Delivered; may be released at any time.
    Releasable,
    /// Removed on the next tick.
    Released,
}

/// A chord that has matched and is not fully resolved yet.
pub struct ActiveChord {
    /// Virtual coordinate standing for the chord in the layout's key state.
    pub coordinate: u16,
    /// Participating keys still held down.
    pub remaining_keys_to_release: HVec<u16, 10>,
    /// Position of the definition in the catalog.
    pub chord: usize,
    pub status: ActiveChordStatus,
    /// Ticks since activation.
    pub delay: u16,
}

impl ActiveChord {
    pub open spec fn model(self) -> ActiveModel {
        ActiveModel {
            coordinate: self.coordinate,
            remaining: key_items(self.remaining_keys_to_release),
            chord: self.chord as int,
            status: self.status,
            delay: self.delay,
        }
    }
}

/// The mathematical value of an active chord.
pub struct ActiveModel {
    pub coordinate: u16,
    pub remaining: Seq<u16>,
    pub chord: int,
    pub status: ActiveChordStatus,
    pub delay: u16,
}

/// The mathematical values of the chords, in order.
pub open spec fn models(s: Seq<ActiveChord>) -> Seq<ActiveModel> {
    s.map_values(|a: ActiveChord| a.model())
}

/// First virtual coordinate handed to active chords; they use the next
/// `NUM_FINGERS` values.
pub const VIRTUAL_COORD_BASE: u16 = 1000;

/// The chord one tick older.
pub open spec fn aged_chord(a: ActiveModel) -> ActiveModel {
    ActiveModel { delay: sat_inc(a.delay), ..a }
}

/// Every chord one tick older.
pub open spec fn aged_chords(s: Seq<ActiveModel>) -> Seq<ActiveModel> {
    s.map_values(|a: ActiveModel| aged_chord(a))
}

pub(crate) proof fn lemma_aged_ok(cat: Seq<ChordV2>, s: Seq<ActiveModel>)
    requires
        all_ok(cat, s),
    ensures
        all_ok(cat, aged_chords(s)),
{
    assert forall|i: int| 0 <= i < aged_chords(s).len() implies #[trigger] chord_ok(
        cat,
        aged_chords(s)[i],
    ) by {
        assert(chord_ok(cat, s[i]));
    }
}

/// Ages every active chord by one tick.
pub(crate) fn age_chords(v: &mut HVec<ActiveChord, 10>)
    requires
        chord_items(*old(v)).len() <= NUM_FINGERS,
    ensures
        models(chord_items(*final(v))) == aged_chords(models(chord_items(*old(v)))),
        chord_items(*final(v)).len() == chord_items(*old(v)).len(),
{
    let ghost orig = chord_items(*v);
    let n = chords_len(v);
    let mut i: usize = 0;
    while i < n
        invariant
            n == orig.len(),
            n <= NUM_FINGERS,
            0 <= i <= n,
            chord_items(*v).len() == n,
            forall|j: int| 0 <= j < n - i ==> #[trigger] chord_items(*v)[j] == orig[i + j],
            forall|j: int|
                0 <= j < i ==> #[trigger] chord_items(*v)[n - i + j].model() == aged_chord(
                    orig[j].model(),
                ),
        decreases n - i,
    {
        let ghost before = chord_items(*v);
        let mut a = chords_remove(v, 0);
        a.delay = sat_inc_u16(a.delay);
        chords_push(v, a);
        proof {
            assert forall|j: int| 0 <= j < n - (i + 1) implies #[trigger] chord_items(*v)[j]
                == orig[i + 1 + j] by {
                assert(chord_items(*v)[j] == before[j + 1]);
            }
            assert forall|j: int| 0 <= j < i + 1 implies #[trigger] chord_items(*v)[n - (i + 1)
                + j].model() == aged_chord(orig[j].model()) by {
                if j < i {
                    assert(chord_items(*v)[n - (i + 1) + j] == before[n - i + j]);
                } else {
                    assert(before[0] == orig[i as int]);
                }
            }
        }
        i = i + 1;
    }
    proof {
        assert forall|j: int| 0 <= j < n implies #[trigger] models(chord_items(*v))[j]
            == aged_chords(models(orig))[j] by {
            assert(chord_items(*v)[n - n + j].model() == aged_chord(orig[j].model()));
        }
        assert(models(chord_items(*v)) =~= aged_chords(models(orig)));
    }
}

/// The keys of `s` other than `k`, in order.
pub open spec fn without(s: Seq<u16>, k: u16) -> Seq<u16>
    decreases s.len(),
{
    if s.len() == 0 {
        Seq::empty()
    } else {
        let r = without(s.drop_last(), k);
        if s.last() == k {
            r
        } else {
            r.push(s.last())
        }
    }
}

/// The status reached once every key of a chord is released.
pub open spec fn after_release(s: ActiveChordStatus) -> ActiveChordStatus {
    match s {
        ActiveChordStatus::Unread | ActiveChordStatus::UnreadReleased => ActiveChordStatus::UnreadReleased,
        ActiveChordStatus::Releasable | ActiveChordStatus::Released => ActiveChordStatus::Released,
    }
}

/// The effect of releasing key `k` on one active chord.
pub open spec fn release_one(cat: Seq<ChordV2>, a: ActiveModel, k: u16) -> ActiveModel {
    if !cat[a.chord].participating_keys@.contains(k) {
        a
    } else {
        let rem = without(a.remaining, k);
        ActiveModel {
            remaining: rem,
            status: if rem.len() == 0 {
                after_release(a.status)
            } else {
                a.status
            },
            ..a
        }
    }
}

/// The effect of releasing key `k` on every active chord.
pub open spec fn release_all(cat: Seq<ChordV2>, s: Seq<ActiveModel>, k: u16) -> Seq<ActiveModel> {
    s.map_values(|a: ActiveModel| release_one(cat, a, k))
}

/// The effect of releasing `keys`, in order, on the active chords.
pub open spec fn apply_releases(cat: Seq<ChordV2>, s: Seq<ActiveModel>, keys: Seq<u16>) -> Seq<
    ActiveModel,
>
    decreases keys.len(),
{
    if keys.len() == 0 {
        s
    } else {
        release_all(cat, apply_releases(cat, s, keys.drop_last()), keys.last())
    }
}

/// An active chord refers to a definition of the catalog and holds at most
/// `NUM_FINGERS` keys, none when it is released on the first release.
pub open spec fn chord_ok(cat: Seq<ChordV2>, a: ActiveModel) -> bool {
    &&& 0 <= a.chord < cat.len()
    &&& a.remaining.len() <= NUM_FINGERS
    &&& cat[a.chord].release_behaviour == ReleaseBehaviour::OnFirstRelease ==> a.remaining.len() == 0
    &&& forall|i: int|
        0 <= i < a.remaining.len() ==> cat[a.chord].participating_keys@.contains(
            #[trigger] a.remaining[i],
        )
}

/// Every active chord is well formed.
pub open spec fn all_ok(cat: Seq<ChordV2>, s: Seq<ActiveModel>) -> bool {
    forall|i: int| 0 <= i < s.len() ==> #[trigger] chord_ok(cat, s[i])
}

proof fn lemma_without_len(s: Seq<u16>, k: u16)
    ensures
        without(s, k).len() <= s.len(),
        forall|i: int| 0 <= i < without(s, k).len() ==> s.contains(#[trigger] without(s, k)[i]),
    decreases s.len(),
{
    if s.len() > 0 {
        let t = s.drop_last();
        lemma_without_len(t, k);
        let r = without(t, k);
        assert forall|i: int| 0 <= i < without(s, k).len() implies s.contains(
            #[trigger] without(s, k)[i],
        ) by {
            if i < r.len() {
                assert(without(s, k)[i] == r[i]);
                let j = choose|j: int| 0 <= j < t.len() && t[j] == r[i];
                assert(s[j] == t[j]);
            } else {
                assert(s[s.len() - 1] == without(s, k)[i]);
            }
        }
    }
}

pub(crate) fn vec_contains(v: &Vec<u16>, k: u16) -> (r: bool)
    ensures
        r == v@.contains(k),
{
    let n = v.len();
    let mut i: usize = 0;
    while i < n
        invariant
            n == v@.len(),
            0 <= i <= n,
            forall|j: int| 0 <= j < i ==> v@[j] != k,
        decreases n - i,
    {
        if v[i] == k {
            assert(v@[i as int] == k);
            return true;
        }
        i = i + 1;
    }
    false
}

/// Applies the release of `key` to one active chord.
fn release_key(a: ActiveChord, key: u16, cat: &ChordsForKeys) -> (r: ActiveChord)
    requires
        chord_ok(cat.defs(), a.model()),
    ensures
        r.model() == release_one(cat.defs(), a.model(), key),
        chord_ok(cat.defs(), r.model()),
{
    if !vec_contains(&cat.chord(a.chord).participating_keys, key) {
        return a;
    }
    let ActiveChord { coordinate, remaining_keys_to_release, chord, status, delay } = a;
    let mut rest = remaining_keys_to_release;
    let ghost orig = key_items(rest);
    let mut kept = keys_new();
    let n = keys_len(&rest);
    let mut i: usize = 0;
    while i < n
        invariant
            n == orig.len(),
            n <= NUM_FINGERS,
            0 <= i <= n,
            key_items(rest) == orig.subrange(i as int, n as int),
            key_items(kept) == without(orig.subrange(0, i as int), key),
        decreases n - i,
    {
        proof {
            lemma_sub_push(orig, i as int);
            lemma_without_len(orig.subrange(0, i as int), key);
        }
        let x = keys_remove(&mut rest, 0);
        if x != key {
            keys_push(&mut kept, x);
        }
        proof {
            assert(orig.subrange(0, i as int + 1).last() == x);
        }
        i = i + 1;
    }
    proof {
        assert(orig.subrange(0, n as int) =~= orig);
        lemma_without_len(orig, key);
    }
    let left = keys_len(&kept);
    let status = if left == 0 {
        match status {
            ActiveChordStatus::Unread | ActiveChordStatus::UnreadReleased => ActiveChordStatus::UnreadReleased,
            ActiveChordStatus::Releasable | ActiveChordStatus::Released => ActiveChordStatus::Released,
        }
    } else {
        status
    };
    ActiveChord { coordinate, remaining_keys_to_release: kept, chord, status, delay }
}

/// Applies the release of `key` to every active chord.
pub(crate) fn release_in_all(v: &mut HVec<ActiveChord, 10>, key: u16, cat: &ChordsForKeys)
    requires
        chord_items(*old(v)).len() <= NUM_FINGERS,
        all_ok(cat.defs(), models(chord_items(*old(v)))),
    ensures
        models(chord_items(*final(v))) == release_all(cat.defs(), models(chord_items(*old(v))), key),
        chord_items(*final(v)).len() == chord_items(*old(v)).len(),
        all_ok(cat.defs(), models(chord_items(*final(v)))),
{
    let ghost orig = chord_items(*v);
    let n = chords_len(v);
    let mut i: usize = 0;
    while i < n
        invariant
            n == orig.len(),
            n <= NUM_FINGERS,
            0 <= i <= n,
            all_ok(cat.defs(), models(orig)),
            chord_items(*v).len() == n,
            forall|j: int| 0 <= j < n - i ==> #[trigger] chord_items(*v)[j] == orig[i + j],
            forall|j: int|
                0 <= j < i ==> #[trigger] chord_items(*v)[n - i + j].model() == release_one(
                    cat.defs(),
                    orig[j].model(),
                    key,
                ) && chord_ok(cat.defs(), chord_items(*v)[n - i + j].model()),
        decreases n - i,
    {
        let ghost before = chord_items(*v);
        let a = chords_remove(v, 0);
        proof {
            assert(a == orig[i as int]);
            assert(chord_ok(cat.defs(), models(orig)[i as int]));
        }
        let b = release_key(a, key, cat);
        chords_push(v, b);
        proof {
            assert forall|j: int| 0 <= j < n - (i + 1) implies #[trigger] chord_items(*v)[j]
                == orig[i + 1 + j] by {
                assert(chord_items(*v)[j] == before[j + 1]);
            }
            assert forall|j: int| 0 <= j < i + 1 implies #[trigger] chord_items(*v)[n - (i + 1)
                + j].model() == release_one(cat.defs(), orig[j].model(), key) && chord_ok(
                cat.defs(),
                chord_items(*v)[n - (i + 1) + j].model(),
            ) by {
                if j < i {
                    assert(chord_items(*v)[n - (i + 1) + j] == before[n - i + j]);
                }
            }
        }
        i = i + 1;
    }
    proof {
        assert forall|j: int| 0 <= j < n implies #[trigger] models(chord_items(*v))[j]
            == release_all(cat.defs(), models(orig), key)[j] by {
            assert(chord_items(*v)[n - n + j].model() == release_one(
                cat.defs(),
                orig[j].model(),
                key,
            ));
        }
        assert(models(chord_items(*v)) =~= release_all(cat.defs(), models(orig), key));
        assert forall|j: int| 0 <= j < n implies #[trigger] chord_ok(
            cat.defs(),
            models(chord_items(*v))[j],
        ) by {
            assert(chord_ok(cat.defs(), chord_items(*v)[n - n + j].model()));
        }
    }
}

/// The release of the chord's virtual coordinate.
pub open spec fn release_event(a: ActiveModel) -> Queued {
    Queued { event: Event::Release(0, a.coordinate), since: 0 }
}

/// The release events of the chords in state `Released`, in order.
pub open spec fn released_out(s: Seq<ActiveModel>) -> Seq<Queued>
    decreases s.len(),
{
    if s.len() == 0 {
        Seq::empty()
    } else {
        let r = released_out(s.drop_last());
        if s.last().status == ActiveChordStatus::Released {
            r.push(release_event(s.last()))
        } else {
            r
        }
    }
}

/// The chords not in state `Released`, in order.
pub open spec fn unreleased(s: Seq<ActiveModel>) -> Seq<ActiveModel>
    decreases s.len(),
{
    if s.len() == 0 {
        Seq::empty()
    } else {
        let r = unreleased(s.drop_last());
        if s.last().status == ActiveChordStatus::Released {
            r
        } else {
            r.push(s.last())
        }
    }
}

pub(crate) proof fn lemma_unreleased_ok(cat: Seq<ChordV2>, s: Seq<ActiveModel>)
    requires
        all_ok(cat, s),
    ensures
        all_ok(cat, unreleased(s)),
        unreleased(s).len() <= s.len(),
        released_out(s).len() <= s.len(),
    decreases s.len(),
{
    if s.len() > 0 {
        let t = s.drop_last();
        assert forall|i: int| 0 <= i < t.len() implies #[trigger] chord_ok(cat, t[i]) by {
            assert(t[i] == s[i]);
        }
        lemma_unreleased_ok(cat, t);
        assert(chord_ok(cat, s[s.len() - 1]));
        let r = unreleased(s);
        assert forall|i: int| 0 <= i < r.len() implies #[trigger] chord_ok(cat, r[i]) by {
            if i < unreleased(t).len() {
                assert(r[i] == unreleased(t)[i]);
            }
        }
    }
}

/// Removes the chords in state `Released`, sending a release of each one's
/// virtual coordinate to `out`.
pub(crate) fn clear_released_chords(v: &mut HVec<ActiveChord, 10>, out: &mut Vec<Queued>)
    requires
        chord_items(*old(v)).len() <= NUM_FINGERS,
    ensures
        models(chord_items(*final(v))) == unreleased(models(chord_items(*old(v)))),
        final(out)@ == old(out)@ + released_out(models(chord_items(*old(v)))),
{
    let ghost orig = chord_items(*v);
    let ghost out0 = out@;
    let ghost mut kept: Seq<ActiveChord> = Seq::empty();
    let n = chords_len(v);
    let mut i: usize = 0;
    while i < n
        invariant
            n == orig.len(),
            n <= NUM_FINGERS,
            0 <= i <= n,
            chord_items(*v) == orig.subrange(i as int, n as int) + kept,
            models(kept) == unreleased(models(orig.subrange(0, i as int))),
            kept.len() <= i,
            out@ == out0 + released_out(models(orig.subrange(0, i as int))),
        decreases n - i,
    {
        proof {
            lemma_sub_push(orig, i as int);
            assert(models(orig.subrange(0, i as int + 1)) =~= models(orig.subrange(0, i as int)).push(
                orig[i as int].model(),
            ));
            assert(models(orig.subrange(0, i as int + 1)).drop_last() =~= models(
                orig.subrange(0, i as int),
            ));
            assert(chord_items(*v)[0] == orig[i as int]);
        }
        let a = chords_remove(v, 0);
        if a.status == ActiveChordStatus::Released {
            out.push(Queued { event: Event::Release(0, a.coordinate), since: 0 });
            proof {
                assert(chord_items(*v) =~= orig.subrange(i as int + 1, n as int) + kept);
            }
        } else {
            chords_push(v, a);
            proof {
                assert(models(kept.push(a)) =~= models(kept).push(a.model()));
                kept = kept.push(a);
                assert(chord_items(*v) =~= orig.subrange(i as int + 1, n as int) + kept);
            }
        }
        i = i + 1;
    }
    proof {
        assert(orig.subrange(0, n as int) =~= orig);
        assert(chord_items(*v) =~= kept);
    }
}

/// The chord has not been delivered yet.
pub open spec fn is_unread(a: ActiveModel) -> bool {
    a.status == ActiveChordStatus::Unread || a.status == ActiveChordStatus::UnreadReleased
}

/// The position of the oldest chord not yet delivered; the length when there
/// is none.
pub open spec fn first_unread(s: Seq<ActiveModel>) -> nat
    decreases s.len(),
{
    if s.len() == 0 {
        0
    } else if is_unread(s[0]) {
        0
    } else {
        1 + first_unread(s.drop_first())
    }
}

pub(crate) proof fn lemma_first_unread_exact(s: Seq<ActiveModel>, i: int)
    requires
        0 <= i <= s.len(),
        forall|j: int| 0 <= j < i ==> !is_unread(#[trigger] s[j]),
        i == s.len() || is_unread(s[i]),
    ensures
        first_unread(s) == i,
    decreases i,
{
    if i > 0 {
        let r = s.drop_first();
        assert forall|j: int| 0 <= j < i - 1 implies !is_unread(#[trigger] r[j]) by {
            assert(r[j] == s[j + 1]);
        }
        if i - 1 < r.len() {
            assert(r[i - 1] == s[i]);
        }
        assert(!is_unread(s[0]));
        lemma_first_unread_exact(r, i - 1);
    }
}

/// A chord handed to the layout engine: its coordinate, its age and its
/// action.
pub type QueuedAction = Option<((u8, u16), u16, Action)>;

/// The status of a chord once delivered.
pub open spec fn delivered_status(s: ActiveChordStatus) -> ActiveChordStatus {
    if s == ActiveChordStatus::UnreadReleased {
        ActiveChordStatus::Released
    } else {
        ActiveChordStatus::Releasable
    }
}

/// What a delivery hands out: the oldest undelivered chord, and whether it is
/// to be released at once.
pub open spec fn poll_result(cat: Seq<ChordV2>, s: Seq<ActiveModel>) -> (QueuedAction, bool) {
    let f = first_unread(s) as int;
    if f >= s.len() {
        (None, false)
    } else {
        (
            Some(((0u8, s[f].coordinate), s[f].delay, cat[s[f].chord].action)),
            s[f].status == ActiveChordStatus::UnreadReleased,
        )
    }
}

/// The active chords after a delivery.
pub open spec fn poll_chords(s: Seq<ActiveModel>) -> Seq<ActiveModel> {
    let f = first_unread(s) as int;
    if f >= s.len() {
        s
    } else {
        s.update(f, ActiveModel { status: delivered_status(s[f].status), ..s[f] })
    }
}

/// No two active chords share a virtual coordinate.
pub open spec fn coords_distinct(s: Seq<ActiveModel>) -> bool {
    forall|i: int, j: int|
        0 <= i < s.len() && 0 <= j < s.len() && i != j ==> #[trigger] s[i].coordinate
            != #[trigger] s[j].coordinate
}

/// Some active chord uses the virtual coordinate `c`.
pub open spec fn coord_used(s: Seq<ActiveModel>, c: u16) -> bool {
    exists|i: int| 0 <= i < s.len() && #[trigger] s[i].coordinate == c
}

/// Whether the `k`th reserved virtual coordinate is in use.
pub open spec fn slot_used(s: Seq<ActiveModel>, k: int) -> bool {
    coord_used(s, (VIRTUAL_COORD_BASE + k) as u16)
}

/// The lowest virtual coordinate from `VIRTUAL_COORD_BASE + k` on that no
/// active chord uses, among the `NUM_FINGERS` reserved ones.
pub open spec fn free_from(s: Seq<ActiveModel>, k: int) -> Option<u16>
    decreases NUM_FINGERS - k,
{
    if k < 0 || k >= NUM_FINGERS {
        None
    } else if !slot_used(s, k) {
        Some((VIRTUAL_COORD_BASE + k) as u16)
    } else {
        free_from(s, k + 1)
    }
}

proof fn lemma_free_from_skip(s: Seq<ActiveModel>, k: int)
    requires
        0 <= k <= NUM_FINGERS,
        forall|j: int| 0 <= j < k ==> #[trigger] slot_used(s, j),
    ensures
        free_from(s, 0) == free_from(s, k),
    decreases k,
{
    if k > 0 {
        lemma_free_from_skip(s, k - 1);
        assert(slot_used(s, k - 1));
    }
}

/// The lowest reserved virtual coordinate that no active chord uses.
pub(crate) fn free_coordinate(v: &HVec<ActiveChord, 10>) -> (r: Option<u16>)
    ensures
        r == free_from(models(chord_items(*v)), 0),
{
    let ghost s = models(chord_items(*v));
    let sl = chords_slice(v);
    let n = sl.len();
    let mut k: u16 = 0;
    while k < 10
        invariant
            sl@ == chord_items(*v),
            n == s.len(),
            s == models(chord_items(*v)),
            0 <= k <= NUM_FINGERS,
            forall|j: int| 0 <= j < k ==> #[trigger] slot_used(s, j),
        decreases 10 - k,
    {
        let c = VIRTUAL_COORD_BASE + k;
        let mut used = false;
        let mut i: usize = 0;
        while i < n
            invariant
                sl@ == chord_items(*v),
                n == s.len(),
                s == models(chord_items(*v)),
                0 <= i <= n,
                used == exists|j: int| 0 <= j < i && #[trigger] s[j].coordinate == c,
            decreases n - i,
        {
            if sl[i].coordinate == c {
                used = true;
            }
            proof {
                assert(s[i as int].coordinate == sl@[i as int].coordinate);
            }
            i = i + 1;
        }
        if !used {
            proof {
                lemma_free_from_skip(s, k as int);
            }
            return Some(c);
        }
        k = k + 1;
    }
    proof {
        lemma_free_from_skip(s, NUM_FINGERS as int);
    }
    None
}

} // verus!
