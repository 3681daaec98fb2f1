//! The table: a slot array with its counters, and the operations on it.
use vstd::prelude::*;
use crate::slot::Elem;
use crate::probe::{
    contents, dist, first_free, free_slots, holds, home, lemma_all_occupied_none_free, lemma_contents_at,
    lemma_contents_take_next, lemma_free_slots_bound, lemma_free_slots_update,
    lemma_gap_means_absent, lemma_none_occupied, lemma_retire, lemma_store, no_tombstones, retired,
    searchable, stored,
};

verus! {

/// The number of slots of a new table.
pub const INIT_LEN: usize = 7;

/// The number of free slots below which an insertion grows the table first.
pub const MIN_FREE: usize = 3;

/// A hash table from `u64` keys to `u64` values with open addressing, linear
/// probing and tombstones.
///
/// Its view is the `Map<u64, u64>` of its live entries.
pub struct OpenAddressing {
    elem_list: Vec<Elem>,
    len: usize,
    cap: usize,
    empty: usize,
}

/// Where a probe for a key ended.
pub struct Probe {
    /// Whether the key is live in the table.
    pub found: bool,
    /// The slot that holds the key if it is live; otherwise the slot that an
    /// insertion of the key fills.
    pub index: usize,
}

impl View for OpenAddressing {
    type V = Map<u64, u64>;

    open spec fn view(&self) -> Map<u64, u64> {
        contents(self.slots())
    }
}

impl OpenAddressing {
    /// The slot array.
    pub closed spec fn slots(&self) -> Seq<Elem> {
        self.elem_list@
    }

    /// The number of live entries.
    pub closed spec fn spec_len(&self) -> nat {
        self.len as nat
    }

    /// The number of slots.
    pub closed spec fn spec_capacity(&self) -> nat {
        self.cap as nat
    }

    /// The number of slots that are not occupied.
    pub closed spec fn spec_free(&self) -> nat {
        self.empty as nat
    }

    /// The invariant of every table that the operations below produce: the
    /// counters agree with the slot array, at least two slots are free, and
    /// linear probing finds every live key.
    pub open spec fn wf(&self) -> bool {
        &&& self.slots().len() == self.spec_capacity()
        &&& self.spec_capacity() >= INIT_LEN
        &&& self.spec_len() + self.spec_free() == self.spec_capacity()
        &&& self.spec_free() == free_slots(self.slots())
        &&& self.spec_free() >= MIN_FREE - 1
        &&& searchable(self.slots())
    }

    /// What a lookup of `k` reports: the value that `k` maps to, if any.
    pub open spec fn spec_lookup(&self, k: u64) -> Option<u64> {
        if self@.contains_key(k) {
            Some(self@[k])
        } else {
            None
        }
    }

    /// A table of `n` vacant slots.
    fn with_slots(n: usize) -> (t: OpenAddressing)
        requires
            n >= INIT_LEN,
        ensures
            t.wf(),
            t@ == Map::<u64, u64>::empty(),
            t.spec_len() == 0,
            t.spec_capacity() == n,
            t.spec_free() == n,
            forall|i: int| 0 <= i < n ==> !(#[trigger] t.slots()[i]).touched(),
    {
        let mut elem_list: Vec<Elem> = Vec::new();
        let mut i: usize = 0;
        while i < n
            invariant
                i <= n,
                elem_list@.len() == i,
                forall|j: int| 0 <= j < i ==> !(#[trigger] elem_list@[j]).touched() && elem_list@[j].wf(),
            decreases n - i,
        {
            elem_list.push(Elem::vacant());
            i += 1;
        }
        proof {
            assert forall|j: int| 0 <= j < elem_list@.len() implies !(#[trigger] elem_list@[j]).occupied() by {
                assert(elem_list@[j].wf());
            }
            lemma_none_occupied(elem_list@);
        }
        OpenAddressing { elem_list, len: 0, cap: n, empty: n }
    }

    /// An empty table of seven slots.
    pub fn new() -> (t: OpenAddressing)
        ensures
            t.wf(),
            t@ == Map::<u64, u64>::empty(),
            t.spec_len() == 0,
            t.spec_capacity() == INIT_LEN,
            t.spec_free() == INIT_LEN,
            forall|i: int| 0 <= i < INIT_LEN ==> !(#[trigger] t.slots()[i]).touched(),
    {
        OpenAddressing::with_slots(INIT_LEN)
    }

    /// The number of live entries.
    pub fn len(&self) -> (n: usize)
        ensures
            n == self.spec_len(),
    {
        self.len
    }

    /// The number of slots.
    pub fn capacity(&self) -> (n: usize)
        ensures
            n == self.spec_capacity(),
    {
        self.cap
    }

    /// The number of slots that are not occupied.
    pub fn free(&self) -> (n: usize)
        ensures
            n == self.spec_free(),
    {
        self.empty
    }

    /// A copy of slot `index`, in whatever state it is.
    pub fn slot(&self, index: usize) -> (e: Elem)
        requires
            index < self.slots().len(),
        ensures
            e == self.slots()[index as int],
    {
        self.elem_list[index]
    }

    /// Probes for `key` from its home slot, one slot at a time and wrapping
    /// round, for at most as many steps as there are slots. The probe ends at
    /// the slot where `key` is live, at a vacant slot, or after a full round.
    /// It reports whether `key` is live and in which slot; for a key that is
    /// not live, the first free slot on its path.
    pub fn probe(&self, key: u64) -> (r: Probe)
        requires
            self.wf(),
        ensures
            r.index < self.spec_capacity(),
            r.found == self@.contains_key(key),
            r.found ==> holds(self.slots(), r.index as int, key),
            !r.found ==> first_free(self.slots(), home(key, self.spec_capacity() as int), r.index as int),
    {
        let cap: usize = self.cap;
        let h: usize = (key % (cap as u64)) as usize;
        let mut idx: usize = h;
        let mut steps: usize = 0;
        let mut target: Option<usize> = None;
        while steps < cap
            invariant
                self.wf(),
                cap == self.cap,
                h == home(key, cap as int),
                0 <= h < cap,
                0 <= idx < cap,
                steps <= cap,
                steps < cap ==> dist(h as int, idx as int, cap as int) == steps,
                forall|q: int|
                    0 <= q < cap && dist(h as int, q, cap as int) < steps ==> (#[trigger] self.slots()[q]).touched()
                        && !holds(self.slots(), q, key),
                target is None ==> forall|q: int|
                    0 <= q < cap && dist(h as int, q, cap as int) < steps ==> (#[trigger] self.slots()[q]).occupied(),
                target matches Some(t) ==> first_free(self.slots(), h as int, t as int) && dist(
                    h as int,
                    t as int,
                    cap as int,
                ) < steps,
            decreases cap - steps,
        {
            let e: Elem = self.elem_list[idx];
            if !e.is_touched() {
                proof {
                    assert(e.wf());
                    lemma_gap_means_absent(self.slots(), key, idx as int);
                }
                let index: usize = match target {
                    Some(t) => t,
                    None => idx,
                };
                return Probe { found: false, index };
            }
            if e.is_occupied() {
                if e.key() == key {
                    proof {
                        lemma_contents_at(self.slots(), idx as int, key);
                    }
                    return Probe { found: true, index: idx };
                }
            } else if target.is_none() {
                target = Some(idx);
            }
            steps += 1;
            idx = if idx + 1 == cap { 0 } else { idx + 1 };
        }
        proof {
            assert forall|q: int| 0 <= q < cap implies !holds(self.slots(), q, key) by {
                assert(dist(h as int, q, cap as int) < steps);
            }
            if target is None {
                assert forall|q: int| 0 <= q < cap implies (#[trigger] self.slots()[q]).occupied() by {
                    assert(dist(h as int, q, cap as int) < steps);
                }
                lemma_all_occupied_none_free(self.slots());
            }
        }
        match target {
            Some(t) => Probe { found: false, index: t },
            // Not taken: a full round over a table with a free slot has met one.
            None => Probe { found: false, index: 0 },
        }
    }

    /// Stores `key -> value` without growing the table: over the old value
    /// where `key` is live, else into the first free slot on the key's path.
    fn store(&mut self, key: u64, value: u64)
        requires
            old(self).wf(),
            old(self).spec_free() >= MIN_FREE,
        ensures
            final(self).wf(),
            final(self)@ == old(self)@.insert(key, value),
            final(self).spec_capacity() == old(self).spec_capacity(),
            final(self).spec_len() == if old(self)@.contains_key(key) {
                old(self).spec_len()
            } else {
                old(self).spec_len() + 1
            },
            stored(old(self).slots(), final(self).slots(), key, value),
    {
        let r = self.probe(key);
        let e = Elem::new(&key, &value);
        proof {
            lemma_store(self.slots(), r.index as int, e, key, value);
            lemma_free_slots_update(self.slots(), r.index as int, e);
        }
        self.elem_list.set(r.index, e);
        if !r.found {
            self.len += 1;
            self.empty -= 1;
        }
    }

    /// Doubles the slot array and stores every live entry again. The
    /// tombstones are left behind: this is how the table reclaims them.
    pub fn rehash(&mut self)
        requires
            old(self).wf(),
            old(self).spec_capacity() * 2 <= usize::MAX,
        ensures
            final(self).wf(),
            final(self)@ == old(self)@,
            final(self).spec_len() == old(self).spec_len(),
            final(self).spec_capacity() == 2 * old(self).spec_capacity(),
            final(self).spec_free() == old(self).spec_capacity() + old(self).spec_free(),
            no_tombstones(final(self).slots()),
    {
        let old_cap: usize = self.cap;
        let mut grown = OpenAddressing::with_slots(old_cap * 2);
        let ghost s = self.slots();
        proof {
            lemma_none_occupied(s.take(0));
        }
        let mut i: usize = 0;
        while i < old_cap
            invariant
                i <= old_cap,
                old_cap == self.cap,
                old_cap >= INIT_LEN,
                s == self.slots(),
                s.len() == old_cap,
                searchable(s),
                grown.wf(),
                grown.spec_capacity() == 2 * old_cap,
                grown@ =~= contents(s.take(i as int)),
                grown.spec_len() + free_slots(s.take(i as int)) == i,
                no_tombstones(grown.slots()),
            decreases old_cap - i,
        {
            let e: Elem = self.elem_list[i];
            proof {
                lemma_contents_take_next(s, i as int);
            }
            if e.is_occupied() {
                grown.store(e.key(), e.value());
            }
            i += 1;
        }
        proof {
            assert(s.take(old_cap as int) =~= s);
        }
        *self = grown;
    }

    /// Maps `key` to `value`, over any value that `key` had. Where fewer than
    /// three slots are free the table grows first, so that a probe always
    /// ends at a free slot.
    ///
    /// A key that is live is overwritten in the slot where it is, also where
    /// a tombstone stands before that slot on the key's path: no key is ever
    /// live in two slots, so a removal can leave no older value behind. A key
    /// that is not live goes into the first free slot on its path.
    pub fn insert(&mut self, key: u64, value: u64)
        requires
            old(self).wf(),
            old(self).spec_free() >= MIN_FREE || old(self).spec_capacity() * 2 <= usize::MAX,
        ensures
            final(self).wf(),
            final(self)@ == old(self)@.insert(key, value),
            final(self).spec_len() == if old(self)@.contains_key(key) {
                old(self).spec_len()
            } else {
                old(self).spec_len() + 1
            },
            final(self).spec_capacity() == if old(self).spec_free() < MIN_FREE {
                2 * old(self).spec_capacity()
            } else {
                old(self).spec_capacity()
            },
            old(self).spec_free() >= MIN_FREE ==> stored(old(self).slots(), final(self).slots(), key, value),
            old(self).spec_free() < MIN_FREE ==> no_tombstones(final(self).slots()),
    {
        if self.empty < MIN_FREE {
            self.rehash();
        }
        self.store(key, value);
    }

    /// The value that `k` maps to, or `None` where `k` is not in the table.
    pub fn lookup(&self, k: u64) -> (r: Option<u64>)
        requires
            self.wf(),
        ensures
            r == self.spec_lookup(k),
    {
        let p = self.probe(k);
        if p.found {
            proof {
                lemma_contents_at(self.slots(), p.index as int, k);
            }
            Some(self.elem_list[p.index].value())
        } else {
            None
        }
    }

    /// Takes `k` out of the table and returns the value it had, or returns
    /// `None` and changes nothing where `k` is not in the table. The slot
    /// becomes a tombstone.
    pub fn remove(&mut self, k: &u64) -> (r: Option<u64>)
        requires
            old(self).wf(),
        ensures
            final(self).wf(),
            r == old(self).spec_lookup(*k),
            final(self)@ == old(self)@.remove(*k),
            final(self).spec_capacity() == old(self).spec_capacity(),
            final(self).spec_len() == if old(self)@.contains_key(*k) {
                old(self).spec_len() - 1
            } else {
                old(self).spec_len() as int
            },
            retired(old(self).slots(), final(self).slots(), *k),
            r is None ==> final(self).slots() == old(self).slots(),
    {
        let p = self.probe(*k);
        if p.found {
            let e: Elem = self.elem_list[p.index];
            let t: Elem = e.retired();
            proof {
                lemma_contents_at(self.slots(), p.index as int, *k);
                lemma_retire(self.slots(), p.index as int, t, *k);
                lemma_free_slots_update(self.slots(), p.index as int, t);
                lemma_free_slots_bound(self.slots().update(p.index as int, t));
            }
            self.elem_list.set(p.index, t);
            self.len -= 1;
            self.empty += 1;
            Some(e.value())
        } else {
            proof {
                assert(self@.remove(*k) =~= self@);
            }
            None
        }
    }

    /// Audits the counters against the slot array: counts the slots that are
    /// not occupied by a full scan and returns the count, which is the free
    /// count that the table maintains.
    pub fn check(&self) -> (scanned: usize)
        requires
            self.wf(),
        ensures
            scanned == free_slots(self.slots()),
            scanned == self.spec_free(),
            self.spec_len() + scanned == self.spec_capacity(),
    {
        let n: usize = self.elem_list.len();
        let mut scanned: usize = 0;
        let mut i: usize = 0;
        while i < n
            invariant
                i <= n,
                n == self.slots().len(),
                scanned == free_slots(self.slots().take(i as int)),
                scanned <= i,
            decreases n - i,
        {
            proof {
                assert(self.slots().take(i + 1).drop_last() =~= self.slots().take(i as int));
            }
            if !self.elem_list[i].is_occupied() {
                scanned += 1;
            }
            i += 1;
        }
        proof {
            assert(self.slots().take(n as int) =~= self.slots());
        }
        scanned
    }
}

} // verus!
