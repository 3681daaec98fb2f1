//! The mathematical model of a slot array: what it maps, how many of its
//! slots are free, and what linear probing needs in order to find every key.
use vstd::prelude::*;
use crate::slot::Elem;

verus! {

/// The index at which probing for `key` starts in an array of `cap` slots.
pub open spec fn home(key: u64, cap: int) -> int {
    (key as int) % cap
}

/// The number of steps that linear probing takes from index `h` to index `p`,
/// wrapping round at `cap`.
pub open spec fn dist(h: int, p: int, cap: int) -> int {
    if p >= h {
        p - h
    } else {
        p + cap - h
    }
}

/// Slot `i` of `s` holds a live entry for key `k`.
pub open spec fn holds(s: Seq<Elem>, i: int, k: u64) -> bool {
    0 <= i < s.len() && s[i].occupied() && s[i].spec_key() == k
}

/// The number of slots that are not occupied, vacant and retired alike.
pub open spec fn free_slots(s: Seq<Elem>) -> nat
    decreases s.len(),
{
    if s.len() == 0 {
        0
    } else {
        free_slots(s.drop_last()) + if s.last().occupied() { 0nat } else { 1nat }
    }
}

/// Slot `p` is the first slot that is not occupied on the path that starts at
/// index `h`.
pub open spec fn first_free(s: Seq<Elem>, h: int, p: int) -> bool {
    &&& 0 <= p < s.len()
    &&& !s[p].occupied()
    &&& forall|q: int|
        0 <= q < s.len() && dist(h, q, s.len() as int) < dist(h, p, s.len() as int) ==> (#[trigger] s[q]).occupied()
}

/// No key is live in two slots.
pub open spec fn distinct_keys(s: Seq<Elem>) -> bool {
    forall|i: int, j: int|
        0 <= i < s.len() && 0 <= j < s.len() && i != j && (#[trigger] s[i]).occupied() && (#[trigger] s[j]).occupied()
            ==> s[i].spec_key() != s[j].spec_key()
}

/// Every slot on the way from a live key's home to its slot has been touched,
/// so a probe for a live key never meets a vacant slot before it meets the key.
pub open spec fn unbroken_chains(s: Seq<Elem>) -> bool {
    forall|i: int, p: int|
        0 <= i < s.len() && 0 <= p < s.len() && (#[trigger] s[i]).occupied()
            && dist(home(s[i].spec_key(), s.len() as int), p, s.len() as int)
                < dist(home(s[i].spec_key(), s.len() as int), i, s.len() as int)
            ==> (#[trigger] s[p]).touched()
}

/// Every slot is in one of its three states.
pub open spec fn slots_wf(s: Seq<Elem>) -> bool {
    forall|i: int| 0 <= i < s.len() ==> (#[trigger] s[i]).wf()
}

/// The map that a slot array stands for: each live key with its value.
pub open spec fn contents(s: Seq<Elem>) -> Map<u64, u64> {
    Map::new(
        |k: u64| exists|i: int| holds(s, i, k),
        |k: u64| s[choose|i: int| holds(s, i, k)].spec_value(),
    )
}

/// No slot is a tombstone: every slot is occupied or vacant.
pub open spec fn no_tombstones(s: Seq<Elem>) -> bool {
    forall|i: int| 0 <= i < s.len() && (#[trigger] s[i]).touched() ==> s[i].occupied()
}

/// `after` is `before` with `k -> v` stored: every slot is as it was but the
/// one that now holds `k -> v`, which is the slot where `k` was live or, if
/// there was none, the first free slot on the path of `k`.
pub open spec fn stored(before: Seq<Elem>, after: Seq<Elem>, k: u64, v: u64) -> bool {
    &&& after.len() == before.len()
    &&& forall|q: int|
        0 <= q < before.len() ==> (#[trigger] after[q]) == before[q] || {
            &&& holds(after, q, k)
            &&& after[q].spec_value() == v
            &&& holds(before, q, k) || (!contents(before).contains_key(k) && first_free(
                before,
                home(k, before.len() as int),
                q,
            ))
        }
}

/// `after` is `before` with the entry of `k` retired: every slot is as it was
/// but the one where `k` was live, which is a tombstone that still shows the
/// key and the value.
pub open spec fn retired(before: Seq<Elem>, after: Seq<Elem>, k: u64) -> bool {
    &&& after.len() == before.len()
    &&& forall|q: int|
        0 <= q < before.len() ==> (#[trigger] after[q]) == before[q] || {
            &&& holds(before, q, k)
            &&& !after[q].occupied()
            &&& after[q].touched()
            &&& after[q].spec_key() == before[q].spec_key()
            &&& after[q].spec_value() == before[q].spec_value()
        }
}

/// A slot array that linear probing can search: the slots are well formed,
/// no key is live twice, and no chain is broken.
pub open spec fn searchable(s: Seq<Elem>) -> bool {
    slots_wf(s) && distinct_keys(s) && unbroken_chains(s)
}

/// At most every slot is free.
pub proof fn lemma_free_slots_bound(s: Seq<Elem>)
    ensures
        free_slots(s) <= s.len(),
    decreases s.len(),
{
    if s.len() > 0 {
        lemma_free_slots_bound(s.drop_last());
    }
}

/// An array whose slots are all occupied has no free slot.
pub proof fn lemma_all_occupied_none_free(s: Seq<Elem>)
    requires
        forall|i: int| 0 <= i < s.len() ==> (#[trigger] s[i]).occupied(),
    ensures
        free_slots(s) == 0,
    decreases s.len(),
{
    if s.len() > 0 {
        lemma_all_occupied_none_free(s.drop_last());
    }
}

/// An array without an occupied slot is all free and maps nothing.
pub proof fn lemma_none_occupied(s: Seq<Elem>)
    requires
        forall|i: int| 0 <= i < s.len() ==> !(#[trigger] s[i]).occupied(),
    ensures
        free_slots(s) == s.len(),
        contents(s) =~= Map::<u64, u64>::empty(),
        distinct_keys(s),
        unbroken_chains(s),
    decreases s.len(),
{
    if s.len() > 0 {
        lemma_none_occupied(s.drop_last());
    }
}

/// Replacing one slot changes the free count by that slot's contribution alone.
pub proof fn lemma_free_slots_update(s: Seq<Elem>, p: int, e: Elem)
    requires
        0 <= p < s.len(),
    ensures
        free_slots(s.update(p, e)) + (if s[p].occupied() { 0nat } else { 1nat })
            == free_slots(s) + (if e.occupied() { 0nat } else { 1nat }),
    decreases s.len(),
{
    let t = s.update(p, e);
    if p == s.len() - 1 {
        assert(t.drop_last() =~= s.drop_last());
    } else {
        assert(t.drop_last() =~= s.drop_last().update(p, e));
        lemma_free_slots_update(s.drop_last(), p, e);
    }
}

/// Where keys are distinct, a live slot decides what its key maps to.
pub proof fn lemma_contents_at(s: Seq<Elem>, i: int, k: u64)
    requires
        distinct_keys(s),
        holds(s, i, k),
    ensures
        contents(s).contains_key(k),
        contents(s)[k] == s[i].spec_value(),
{
    let j = choose|j: int| holds(s, j, k);
    assert(holds(s, j, k));
    assert(j == i);
}

/// Writing `k -> v` into the slot where `k` is live, or into a free slot when
/// `k` is live nowhere, maps `k` to `v` and leaves every other key alone.
pub proof fn lemma_store(s: Seq<Elem>, p: int, e: Elem, k: u64, v: u64)
    requires
        searchable(s),
        0 <= p < s.len(),
        e.occupied(),
        e.touched(),
        e.spec_key() == k,
        e.spec_value() == v,
        holds(s, p, k) || (first_free(s, home(k, s.len() as int), p) && !contents(s).contains_key(k)),
    ensures
        searchable(s.update(p, e)),
        contents(s.update(p, e)) =~= contents(s).insert(k, v),
{
    let t = s.update(p, e);
    assert forall|i: int, j: int|
        0 <= i < t.len() && 0 <= j < t.len() && i != j && (#[trigger] t[i]).occupied() && (#[trigger] t[j]).occupied()
        implies t[i].spec_key() != t[j].spec_key() by {
        if i == p {
            assert(holds(s, j, t[j].spec_key()));
        } else if j == p {
            assert(holds(s, i, t[i].spec_key()));
        } else {
            assert(s[i].occupied() && s[j].occupied());
        }
    }
    assert forall|i: int, q: int|
        0 <= i < t.len() && 0 <= q < t.len() && (#[trigger] t[i]).occupied()
            && dist(home(t[i].spec_key(), t.len() as int), q, t.len() as int)
                < dist(home(t[i].spec_key(), t.len() as int), i, t.len() as int)
        implies (#[trigger] t[q]).touched() by {
        if q != p {
            if i == p {
                if holds(s, p, k) {
                    assert(s[p].occupied());
                } else {
                    assert(s[q].occupied());
                    assert(s[q].wf());
                }
            } else {
                assert(s[i].occupied());
                assert(s[q].touched());
            }
        }
    }
    assert(slots_wf(t)) by {
        assert forall|i: int| 0 <= i < t.len() implies (#[trigger] t[i]).wf() by {
            if i != p {
                assert(s[i].wf());
            }
        }
    }
    assert(holds(t, p, k));
    lemma_contents_at(t, p, k);
    assert forall|x: u64| contents(t).contains_key(x) <==> contents(s).insert(k, v).contains_key(x) by {
        if contents(t).contains_key(x) {
            let i = choose|i: int| holds(t, i, x);
            if i != p {
                assert(holds(s, i, x));
            }
        }
        if x != k && contents(s).contains_key(x) {
            let i = choose|i: int| holds(s, i, x);
            assert(holds(t, i, x));
        }
    }
    assert forall|x: u64| contents(t).contains_key(x) implies contents(t)[x] == contents(s).insert(k, v)[x] by {
        if x != k {
            let i = choose|i: int| holds(s, i, x);
            assert(holds(s, i, x));
            assert(holds(t, i, x));
            lemma_contents_at(s, i, x);
            lemma_contents_at(t, i, x);
        }
    }
}

/// Retiring the slot where `k` is live unmaps `k` and leaves every other key alone.
pub proof fn lemma_retire(s: Seq<Elem>, p: int, e: Elem, k: u64)
    requires
        searchable(s),
        holds(s, p, k),
        !e.occupied(),
        e.touched(),
    ensures
        searchable(s.update(p, e)),
        contents(s.update(p, e)) =~= contents(s).remove(k),
{
    let t = s.update(p, e);
    assert forall|i: int, j: int|
        0 <= i < t.len() && 0 <= j < t.len() && i != j && (#[trigger] t[i]).occupied() && (#[trigger] t[j]).occupied()
        implies t[i].spec_key() != t[j].spec_key() by {
        assert(s[i].occupied() && s[j].occupied());
    }
    assert forall|i: int, q: int|
        0 <= i < t.len() && 0 <= q < t.len() && (#[trigger] t[i]).occupied()
            && dist(home(t[i].spec_key(), t.len() as int), q, t.len() as int)
                < dist(home(t[i].spec_key(), t.len() as int), i, t.len() as int)
        implies (#[trigger] t[q]).touched() by {
        if q != p {
            assert(s[i].occupied());
            assert(s[q].touched());
        }
    }
    assert(slots_wf(t)) by {
        assert forall|i: int| 0 <= i < t.len() implies (#[trigger] t[i]).wf() by {
            if i != p {
                assert(s[i].wf());
            }
        }
    }
    assert forall|x: u64| contents(t).contains_key(x) <==> contents(s).remove(k).contains_key(x) by {
        if contents(t).contains_key(x) {
            let i = choose|i: int| holds(t, i, x);
            assert(holds(s, i, x));
            if x == k {
                assert(s[i].occupied() && s[p].occupied());
            }
        }
        if x != k && contents(s).contains_key(x) {
            let i = choose|i: int| holds(s, i, x);
            assert(holds(t, i, x));
        }
    }
    assert forall|x: u64| contents(t).contains_key(x) implies contents(t)[x] == contents(s).remove(k)[x] by {
        let i = choose|i: int| holds(t, i, x);
        assert(holds(t, i, x));
        assert(holds(s, i, x));
        lemma_contents_at(s, i, x);
        lemma_contents_at(t, i, x);
    }
}

/// A probe that has met a vacant slot without meeting `k` has shown that `k`
/// is live nowhere.
pub proof fn lemma_gap_means_absent(s: Seq<Elem>, k: u64, at: int)
    requires
        searchable(s),
        0 <= at < s.len(),
        !s[at].touched(),
        forall|q: int|
            0 <= q < s.len() && dist(home(k, s.len() as int), q, s.len() as int)
                < dist(home(k, s.len() as int), at, s.len() as int)
                ==> !holds(s, q, k),
    ensures
        !contents(s).contains_key(k),
{
    if contents(s).contains_key(k) {
        let i = choose|i: int| holds(s, i, k);
        assert(holds(s, i, k));
        assert(s[i].wf());
        assert(s[i].occupied());
        assert(s[at].touched() || dist(home(k, s.len() as int), at, s.len() as int)
            >= dist(home(k, s.len() as int), i, s.len() as int));
    }
}

/// The map of the first `n + 1` slots is that of the first `n`, with slot
/// `n`'s entry added where the slot is occupied.
pub proof fn lemma_contents_take_next(s: Seq<Elem>, n: int)
    requires
        distinct_keys(s),
        0 <= n < s.len(),
    ensures
        s[n].occupied() ==> !contents(s.take(n)).contains_key(s[n].spec_key()),
        contents(s.take(n + 1)) =~= if s[n].occupied() {
            contents(s.take(n)).insert(s[n].spec_key(), s[n].spec_value())
        } else {
            contents(s.take(n))
        },
        free_slots(s.take(n + 1)) == free_slots(s.take(n)) + if s[n].occupied() { 0nat } else { 1nat },
{
    let a = s.take(n);
    let b = s.take(n + 1);
    assert(b.drop_last() =~= a);
    assert(distinct_keys(a)) by {
        assert forall|i: int, j: int|
            0 <= i < a.len() && 0 <= j < a.len() && i != j && (#[trigger] a[i]).occupied() && (#[trigger] a[j]).occupied()
            implies a[i].spec_key() != a[j].spec_key() by {
            assert(s[i].occupied() && s[j].occupied());
        }
    }
    assert(distinct_keys(b)) by {
        assert forall|i: int, j: int|
            0 <= i < b.len() && 0 <= j < b.len() && i != j && (#[trigger] b[i]).occupied() && (#[trigger] b[j]).occupied()
            implies b[i].spec_key() != b[j].spec_key() by {
            assert(s[i].occupied() && s[j].occupied());
        }
    }
    if s[n].occupied() && contents(a).contains_key(s[n].spec_key()) {
        let i = choose|i: int| holds(a, i, s[n].spec_key());
        assert(holds(a, i, s[n].spec_key()));
        assert(s[i].occupied() && s[n].occupied());
    }
    let m = if s[n].occupied() {
        contents(a).insert(s[n].spec_key(), s[n].spec_value())
    } else {
        contents(a)
    };
    assert forall|x: u64| contents(b).contains_key(x) <==> m.contains_key(x) by {
        if contents(b).contains_key(x) {
            let i = choose|i: int| holds(b, i, x);
            if i != n {
                assert(holds(a, i, x));
            }
        }
        if contents(a).contains_key(x) {
            let i = choose|i: int| holds(a, i, x);
            assert(holds(b, i, x));
        }
        if s[n].occupied() && x == s[n].spec_key() {
            assert(holds(b, n, x));
        }
    }
    assert forall|x: u64| contents(b).contains_key(x) implies contents(b)[x] == m[x] by {
        let i = choose|i: int| holds(b, i, x);
        assert(holds(b, i, x));
        lemma_contents_at(b, i, x);
        if i != n {
            assert(holds(a, i, x));
            lemma_contents_at(a, i, x);
            assert(s[i].occupied());
        }
    }
}

/// The first `n` slots map as many keys as they have occupied slots.
proof fn lemma_contents_size_upto(s: Seq<Elem>, n: int)
    requires
        distinct_keys(s),
        0 <= n <= s.len(),
    ensures
        contents(s.take(n)).dom().finite(),
        contents(s.take(n)).dom().len() + free_slots(s.take(n)) == n,
    decreases n,
{
    if n == 0 {
        lemma_none_occupied(s.take(0));
        assert(contents(s.take(0)).dom() =~= Set::<u64>::empty());
    } else {
        lemma_contents_size_upto(s, n - 1);
        lemma_contents_take_next(s, n - 1);
        let before = contents(s.take(n - 1));
        if s[n - 1].occupied() {
            assert(contents(s.take(n)).dom() =~= before.dom().insert(s[n - 1].spec_key()));
        } else {
            assert(contents(s.take(n)).dom() =~= before.dom());
        }
    }
}

/// Where keys are distinct, the map has one key for each occupied slot.
pub proof fn lemma_contents_size(s: Seq<Elem>)
    requires
        distinct_keys(s),
    ensures
        contents(s).dom().finite(),
        contents(s).len() + free_slots(s) == s.len(),
{
    lemma_contents_size_upto(s, s.len() as int);
    assert(s.take(s.len() as int) =~= s);
}

} // verus!
