use vstd::prelude::*;
use crate::action::Action;
use crate::containers::{KeyIndex, index_get, index_insert, index_new, index_remove};

verus! {

/// When the action of an active chord is released.
#[derive(Clone, Copy, Debug, PartialEq, Eq, Structural)]
pub enum ReleaseBehaviour {
    OnFirstRelease,
    OnLastRelease,
}

/// The definition of one chord.
pub struct ChordV2 {
    /// The action associated with this chord.
    pub action: Action,
    /// The full set of keys that need to be pressed to activate this chord.
    pub participating_keys: Vec<u16>,
    /// The number of ticks during which, after the first press of a participant,
    /// this chord can be activated if all participants get pressed.
    pub pending_duration: u16,
    /// The layers on which this chord is disabled.
    pub disabled_layers: Vec<u16>,
    /// When should the action for this chord be released.
    pub release_behaviour: ReleaseBehaviour,
}

/// The chords that one key participates in, as positions in the catalog, in
/// catalog order.
pub struct ChordsForKey {
    pub chords: Vec<usize>,
}

/// The chord catalog: the definitions, and for each key the chords it takes
/// part in.
pub struct ChordsForKeys {
    chords: Vec<ChordV2>,
    mapping: KeyIndex,
}

/// Whether the chord lists `k` among its participants.
pub open spec fn has_key(c: ChordV2, k: u16) -> bool {
    c.participating_keys@.contains(k)
}

/// The positions among the first `n` definitions of the chords that list `k`,
/// in ascending order.
pub open spec fn candidates(cat: Seq<ChordV2>, k: u16, n: int) -> Seq<usize>
    decreases n,
{
    if n <= 0 {
        Seq::empty()
    } else {
        let r = candidates(cat, k, n - 1);
        if has_key(cat[n - 1], k) {
            r.push((n - 1) as usize)
        } else {
            r
        }
    }
}

/// What an index binds to a key, the empty list where it binds nothing.
pub open spec fn entry(m: Map<u16, ChordsForKey>, k: u16) -> Seq<usize> {
    if m.contains_key(k) {
        m[k].chords@
    } else {
        Seq::empty()
    }
}

proof fn lemma_candidates_below(cat: Seq<ChordV2>, k: u16, n: int)
    requires
        0 <= n <= usize::MAX + 1,
    ensures
        forall|i: int| 0 <= i < candidates(cat, k, n).len() ==> candidates(cat, k, n)[i] < n,
    decreases n,
{
    if n > 0 {
        lemma_candidates_below(cat, k, n - 1);
        let r = candidates(cat, k, n - 1);
        assert(((n - 1) as usize) as int == n - 1);
        if has_key(cat[n - 1], k) {
            let s = r.push((n - 1) as usize);
            assert forall|i: int| 0 <= i < s.len() implies #[trigger] s[i] < n by {
                if i < r.len() {
                    assert(s[i] == r[i]);
                }
            }
        }
    }
}

impl ChordsForKeys {
    /// The definitions, in catalog order.
    pub closed spec fn defs(&self) -> Seq<ChordV2> {
        self.chords@
    }

    /// The index matches the definitions.
    pub closed spec fn wf(&self) -> bool {
        self.chords@.len() <= usize::MAX && forall|k: u16| #[trigger]
            entry(self.mapping@, k) == candidates(self.chords@, k, self.chords@.len() as int)
    }

    /// Builds the catalog from its definitions.
    pub fn new(chords: Vec<ChordV2>) -> (r: Self)
        ensures
            r.wf(),
            r.defs() == chords@,
    {
        let mut mapping = index_new();
        let n = chords.len();
        let mut i: usize = 0;
        while i < n
            invariant
                n == chords@.len(),
                0 <= i <= n,
                forall|k: u16| #[trigger] entry(mapping@, k) == candidates(chords@, k, i as int),
            decreases n - i,
        {
            let keys = &chords[i].participating_keys;
            let m = keys.len();
            let mut j: usize = 0;
            while j < m
                invariant
                    n == chords@.len(),
                    0 <= i < n,
                    keys == &chords@[i as int].participating_keys,
                    m == keys@.len(),
                    0 <= j <= m,
                    forall|k: u16| #[trigger]
                        entry(mapping@, k) == if keys@.subrange(0, j as int).contains(k) {
                            candidates(chords@, k, i as int).push(i)
                        } else {
                            candidates(chords@, k, i as int)
                        },
                decreases m - j,
            {
                let k = keys[j];
                let ghost before = mapping@;
                let list = match index_remove(&mut mapping, k) {
                    Some(l) => l,
                    None => ChordsForKey { chords: Vec::new() },
                };
                let mut list = list;
                let len = list.chords.len();
                let ghost old_list = list.chords@;
                proof {
                    lemma_candidates_below(chords@, k, i as int);
                    assert(keys@.subrange(0, j as int + 1) =~= keys@.subrange(0, j as int).push(k));
                }
                if len == 0 || list.chords[len - 1] != i {
                    list.chords.push(i);
                }
                proof {
                    assert(old_list == entry(before, k));
                    assert(keys@.subrange(0, j as int + 1).contains(k)) by {
                        assert(keys@.subrange(0, j as int + 1)[j as int] == k);
                    }
                    if keys@.subrange(0, j as int).contains(k) {
                        assert(old_list == candidates(chords@, k, i as int).push(i));
                        assert(old_list[old_list.len() - 1] == i);
                        assert(list.chords@ == old_list);
                    } else {
                        assert(old_list == candidates(chords@, k, i as int));
                        if old_list.len() > 0 {
                            assert(old_list[old_list.len() - 1] < i);
                        }
                        assert(list.chords@ == old_list.push(i));
                    }
                    assert(list.chords@ == candidates(chords@, k, i as int).push(i));
                }
                index_insert(&mut mapping, k, list);
                proof {
                    assert forall|k2: u16| #[trigger]
                        entry(mapping@, k2) == if keys@.subrange(0, j as int + 1).contains(k2) {
                            candidates(chords@, k2, i as int).push(i)
                        } else {
                            candidates(chords@, k2, i as int)
                        } by {
                        if k2 != k {
                            assert(entry(mapping@, k2) == entry(before, k2));
                            if keys@.subrange(0, j as int + 1).contains(k2) {
                                let p = choose|p: int|
                                    0 <= p < j + 1 && #[trigger] keys@.subrange(0, j as int + 1)[p]
                                        == k2;
                                assert(keys@.subrange(0, j as int)[p] == k2);
                            }
                        }
                    }
                }
                j = j + 1;
            }
            proof {
                assert(keys@.subrange(0, m as int) =~= keys@);
                assert forall|k: u16| #[trigger]
                    entry(mapping@, k) == candidates(chords@, k, i as int + 1) by {
                    assert(has_key(chords@[i as int], k) == keys@.contains(k));
                }
            }
            i = i + 1;
        }
        ChordsForKeys { chords, mapping }
    }

    /// The number of definitions.
    pub fn len(&self) -> (r: usize)
        ensures
            r as int == self.defs().len(),
    {
        self.chords.len()
    }

    /// The definition at position `i`.
    pub fn chord(&self, i: usize) -> (r: &ChordV2)
        requires
            i < self.defs().len(),
        ensures
            *r == self.defs()[i as int],
    {
        &self.chords[i]
    }

    /// The positions of the chords that list `key`, in catalog order.
    pub fn candidates_for(&self, key: u16) -> (r: Vec<usize>)
        requires
            self.wf(),
        ensures
            r@ == candidates(self.defs(), key, self.defs().len() as int),
            forall|i: int| 0 <= i < r@.len() ==> #[trigger] r@[i] < self.defs().len(),
    {
        proof {
            lemma_candidates_below(self.chords@, key, self.chords@.len() as int);
        }
        let mut r: Vec<usize> = Vec::new();
        match index_get(&self.mapping, key) {
            Some(list) => {
                let n = list.chords.len();
                let mut i: usize = 0;
                while i < n
                    invariant
                        n == list.chords@.len(),
                        0 <= i <= n,
                        r@ == list.chords@.subrange(0, i as int),
                    decreases n - i,
                {
                    r.push(list.chords[i]);
                    proof {
                        assert(list.chords@.subrange(0, i as int + 1) =~= list.chords@.subrange(
                            0,
                            i as int,
                        ).push(list.chords@[i as int]));
                    }
                    i = i + 1;
                }
                proof {
                    assert(list.chords@.subrange(0, n as int) =~= list.chords@);
                    assert(entry(self.mapping@, key) == list.chords@);
                }
            },
            None => {
                proof {
                    assert(entry(self.mapping@, key) == Seq::<usize>::empty());
                }
            },
        }
        r
    }
}

} // verus!
