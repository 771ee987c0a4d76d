use vstd::prelude::*;
use arraydeque::{ArrayDeque, Wrapping};
use heapless::Vec as HVec;
use rustc_hash::{FxHashMap, FxHasher};
use std::hash::BuildHasherDefault;
use crate::event::Queued;
use crate::catalog::ChordsForKey;
use crate::active::ActiveChord;

verus! {

#[verifier::external_type_specification]
#[verifier::external_body]
#[verifier::reject_recursive_types(T)]
pub struct ExHVec<T, const N: usize>(HVec<T, N>);

#[verifier::external_type_specification]
#[verifier::external_body]
pub struct ExFxHasher(FxHasher);

#[verifier::external_type_specification]
#[verifier::external_body]
#[verifier::reject_recursive_types(H)]
pub struct ExBuildHasherDefault<H>(BuildHasherDefault<H>);

/// Most simultaneous contacts the engine tracks: the capacity of the event
/// queue, of the active chord table and of a chord's key set.
pub const NUM_FINGERS: usize = 10;

// ---------------------------------------------------------------------------
// Event queue: an `arraydeque` ring buffer that wraps around when full.
/// The bounded ring buffer of pending events, which drops its oldest entry
/// when a new one arrives while it is full.
#[verifier::external_body]
pub struct EventQueue {
    deque: ArrayDeque<Queued, 10, Wrapping>,
}

/// The events held by a queue, oldest first.
pub uninterp spec fn queue_items(q: EventQueue) -> Seq<Queued>;

/// Relies on `ArrayDeque::new`: a new deque is empty.
#[verifier::external_body]
pub(crate) fn queue_new() -> (r: EventQueue)
    ensures
        queue_items(r) == Seq::<Queued>::empty(),
{
    EventQueue { deque: ArrayDeque::new() }
}

/// Relies on `ArrayDeque::len`: the number of elements held.
#[verifier::external_body]
pub(crate) fn queue_len(q: &EventQueue) -> (r: usize)
    ensures
        r as int == queue_items(*q).len(),
{
    q.deque.len()
}

/// Relies on `ArrayDeque::push_back` with the `Wrapping` behaviour: the element
/// goes to the back; when the deque is full its front element is evicted and
/// returned.
#[verifier::external_body]
pub(crate) fn queue_push_back(q: &mut EventQueue, x: Queued) -> (r: Option<Queued>)
    ensures
        queue_items(*old(q)).len() < NUM_FINGERS ==> r == None::<Queued> && queue_items(*final(q))
            == queue_items(*old(q)).push(x),
        queue_items(*old(q)).len() == NUM_FINGERS ==> r == Some(queue_items(*old(q))[0])
            && queue_items(*final(q)) == queue_items(*old(q)).drop_first().push(x),
{
    q.deque.push_back(x)
}

/// Relies on `ArrayDeque::get`: the element at position `i` from the front.
#[verifier::external_body]
pub(crate) fn queue_get(q: &EventQueue, i: usize) -> (r: Option<Queued>)
    ensures
        i < queue_items(*q).len() ==> r == Some(queue_items(*q)[i as int]),
        i >= queue_items(*q).len() ==> r is None,
{
    q.deque.get(i).copied()
}

/// Relies on `ArrayDeque::pop_front`: removes and returns the front element.
#[verifier::external_body]
pub(crate) fn queue_pop_front(q: &mut EventQueue) -> (r: Option<Queued>)
    ensures
        queue_items(*old(q)).len() == 0 ==> r == None::<Queued> && queue_items(*final(q))
            == queue_items(*old(q)),
        queue_items(*old(q)).len() > 0 ==> r == Some(queue_items(*old(q))[0])
            && queue_items(*final(q)) == queue_items(*old(q)).drop_first(),
{
    q.deque.pop_front()
}

// ---------------------------------------------------------------------------
// Key sets: `heapless::Vec<u16, 10>`.
/// The keys held by a fixed-capacity key vector, in order.
pub uninterp spec fn key_items(v: HVec<u16, 10>) -> Seq<u16>;

/// Relies on `heapless::Vec::new`: a new vector is empty.
#[verifier::external_body]
pub(crate) fn keys_new() -> (r: HVec<u16, 10>)
    ensures
        key_items(r) == Seq::<u16>::empty(),
{
    HVec::new()
}

/// Relies on `heapless::Vec::len`: the number of elements held.
#[verifier::external_body]
pub(crate) fn keys_len(v: &HVec<u16, 10>) -> (r: usize)
    ensures
        r as int == key_items(*v).len(),
{
    v.len()
}

/// Relies on `heapless::Vec::push`: appends unless full, else hands the item back.
#[verifier::external_body]
pub(crate) fn keys_push(v: &mut HVec<u16, 10>, x: u16) -> (r: Result<(), u16>)
    ensures
        key_items(*old(v)).len() < NUM_FINGERS ==> r is Ok && key_items(*final(v))
            == key_items(*old(v)).push(x),
        key_items(*old(v)).len() == NUM_FINGERS ==> r is Err && r->Err_0 == x && key_items(*final(v))
            == key_items(*old(v)),
{
    v.push(x)
}

/// Relies on `heapless::Vec::as_slice`: the elements, in order.
#[verifier::external_body]
pub(crate) fn keys_slice(v: &HVec<u16, 10>) -> (r: &[u16])
    ensures
        r@ == key_items(*v),
{
    v.as_slice()
}

/// Relies on `heapless::Vec::remove`: removes and returns the element at `i`,
/// shifting the later ones down; it panics when `i` is out of bounds.
#[verifier::external_body]
pub(crate) fn keys_remove(v: &mut HVec<u16, 10>, i: usize) -> (r: u16)
    requires
        i < key_items(*old(v)).len(),
    ensures
        r == key_items(*old(v))[i as int],
        key_items(*final(v)) == key_items(*old(v)).remove(i as int),
{
    v.remove(i)
}

// ---------------------------------------------------------------------------
// Active chord table: `heapless::Vec<ActiveChord, 10>`.
/// The chords held by a fixed-capacity table, in order.
pub uninterp spec fn chord_items(v: HVec<ActiveChord, 10>) -> Seq<ActiveChord>;

/// Relies on `heapless::Vec::new`: a new vector is empty.
#[verifier::external_body]
pub(crate) fn chords_new() -> (r: HVec<ActiveChord, 10>)
    ensures
        chord_items(r) == Seq::<ActiveChord>::empty(),
{
    HVec::new()
}

/// Relies on `heapless::Vec::len`: the number of elements held.
#[verifier::external_body]
pub(crate) fn chords_len(v: &HVec<ActiveChord, 10>) -> (r: usize)
    ensures
        r as int == chord_items(*v).len(),
{
    v.len()
}

/// Relies on `heapless::Vec::push`: appends unless full, else hands the item back.
#[verifier::external_body]
pub(crate) fn chords_push(v: &mut HVec<ActiveChord, 10>, x: ActiveChord) -> (r: Result<
    (),
    ActiveChord,
>)
    ensures
        chord_items(*old(v)).len() < NUM_FINGERS ==> r is Ok && chord_items(*final(v)) == chord_items(
            *old(v),
        ).push(x),
        chord_items(*old(v)).len() == NUM_FINGERS ==> r is Err && r->Err_0 == x && chord_items(
            *final(v),
        ) == chord_items(*old(v)),
{
    v.push(x)
}

/// Relies on `heapless::Vec::insert`: puts the element at `i`, shifting the
/// later ones up, unless the vector is full; it panics when `i` is past the end.
#[verifier::external_body]
pub(crate) fn chords_insert(v: &mut HVec<ActiveChord, 10>, i: usize, x: ActiveChord) -> (r: Result<
    (),
    ActiveChord,
>)
    requires
        i <= chord_items(*old(v)).len(),
    ensures
        chord_items(*old(v)).len() < NUM_FINGERS ==> r is Ok && chord_items(*final(v)) == chord_items(
            *old(v),
        ).insert(i as int, x),
        chord_items(*old(v)).len() == NUM_FINGERS ==> r is Err && r->Err_0 == x && chord_items(
            *final(v),
        ) == chord_items(*old(v)),
{
    v.insert(i, x)
}

/// Relies on `heapless::Vec::as_slice`: the elements, in order.
#[verifier::external_body]
pub(crate) fn chords_slice(v: &HVec<ActiveChord, 10>) -> (r: &[ActiveChord])
    ensures
        r@ == chord_items(*v),
{
    v.as_slice()
}

/// Relies on `heapless::Vec::remove`: removes and returns the element at `i`,
/// shifting the later ones down; it panics when `i` is out of bounds.
#[verifier::external_body]
pub(crate) fn chords_remove(v: &mut HVec<ActiveChord, 10>, i: usize) -> (r: ActiveChord)
    requires
        i < chord_items(*old(v)).len(),
    ensures
        r == chord_items(*old(v))[i as int],
        chord_items(*final(v)) == chord_items(*old(v)).remove(i as int),
{
    v.remove(i)
}

// ---------------------------------------------------------------------------
// Catalog index: `rustc_hash::FxHashMap<u16, ChordsForKey>`, viewed through
// vstd's `Map` model of `std::collections::HashMap`.
pub type KeyIndex = FxHashMap<u16, ChordsForKey>;

/// Relies on `FxHashMap::default`: a new map is empty.
#[verifier::external_body]
pub(crate) fn index_new() -> (r: KeyIndex)
    ensures
        r@ =~= Map::empty(),
{
    FxHashMap::default()
}

/// Relies on `HashMap::insert` with the deterministic `FxHasher`: the key is
/// bound to the value afterwards.
#[verifier::external_body]
pub(crate) fn index_insert(m: &mut KeyIndex, k: u16, v: ChordsForKey)
    ensures
        final(m)@ == old(m)@.insert(k, v),
{
    m.insert(k, v);
}

/// Relies on `HashMap::remove` with the deterministic `FxHasher`: the binding of
/// the key is taken out and returned.
#[verifier::external_body]
pub(crate) fn index_remove(m: &mut KeyIndex, k: u16) -> (r: Option<ChordsForKey>)
    ensures
        final(m)@ == old(m)@.remove(k),
        old(m)@.contains_key(k) ==> r == Some(old(m)@[k]),
        !old(m)@.contains_key(k) ==> r is None,
{
    m.remove(&k)
}

/// Relies on `HashMap::get` with the deterministic `FxHasher`: the value bound
/// to the key, if any.
#[verifier::external_body]
pub(crate) fn index_get(m: &KeyIndex, k: u16) -> (r: Option<&ChordsForKey>)
    ensures
        m@.contains_key(k) ==> r == Some(&m@[k]),
        !m@.contains_key(k) ==> r is None,
{
    m.get(&k)
}

} // verus!
