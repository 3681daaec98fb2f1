//! What holds of the table across its operations, stated over its view and
//! its counters and proved from the model.
use vstd::prelude::*;
use crate::probe::{free_slots, lemma_contents_size};
use crate::table::OpenAddressing;

verus! {

/// One change that a caller makes to a table.
pub enum Op {
    /// Map the key to the value.
    Insert { key: u64, value: u64 },
    /// Take the key out.
    Remove { key: u64 },
    /// Grow the slot array.
    Rehash,
}

impl Op {
    /// What the change does to the map that a table stands for.
    pub open spec fn apply(self, m: Map<u64, u64>) -> Map<u64, u64> {
        match self {
            Op::Insert { key, value } => m.insert(key, value),
            Op::Remove { key } => m.remove(key),
            Op::Rehash => m,
        }
    }

    /// Whether the change inserts or removes `k`.
    pub open spec fn touches(self, k: u64) -> bool {
        match self {
            Op::Insert { key, .. } => key == k,
            Op::Remove { key } => key == k,
            Op::Rehash => false,
        }
    }
}

/// `states` is a history of a table under `ops`: each state's map is the
/// one before it with the next change applied.
pub open spec fn history(states: Seq<OpenAddressing>, ops: Seq<Op>) -> bool {
    &&& states.len() == ops.len() + 1
    &&& forall|i: int| 0 <= i < ops.len() ==> states[i + 1]@ == (#[trigger] ops[i]).apply(states[i]@)
}

/// In every well-formed table the live entries and the free slots make up
/// the slot array, and the free count is what a scan of the array counts.
pub proof fn law_counters_agree(t: OpenAddressing)
    requires
        t.wf(),
    ensures
        t.spec_len() + t.spec_free() == t.spec_capacity(),
        t.spec_free() == free_slots(t.slots()),
        t.spec_capacity() == t.slots().len(),
{
}

/// The count of a well-formed table is the number of keys that it maps.
pub proof fn law_len_counts_keys(t: OpenAddressing)
    requires
        t.wf(),
    ensures
        t@.dom().finite(),
        t.spec_len() == t@.len(),
{
    lemma_contents_size(t.slots());
}

/// A lookup right after an insertion of the same key reports the inserted value.
pub proof fn law_insert_then_lookup(before: OpenAddressing, after: OpenAddressing, key: u64, value: u64)
    requires
        after@ == before@.insert(key, value),
    ensures
        after.spec_lookup(key) == Some(value),
{
}

/// An insertion changes what no other key maps to.
pub proof fn law_insert_keeps_others(
    before: OpenAddressing,
    after: OpenAddressing,
    key: u64,
    value: u64,
    other: u64,
)
    requires
        after@ == before@.insert(key, value),
        other != key,
    ensures
        after.spec_lookup(other) == before.spec_lookup(other),
{
}

/// A removal changes what no other key maps to.
pub proof fn law_remove_keeps_others(before: OpenAddressing, after: OpenAddressing, key: u64, other: u64)
    requires
        after@ == before@.remove(key),
        other != key,
    ensures
        after.spec_lookup(other) == before.spec_lookup(other),
{
}

/// What a key maps to stays as it is for as long as no change inserts or
/// removes that key.
pub proof fn law_untouched_key_stays(
    states: Seq<OpenAddressing>,
    ops: Seq<Op>,
    from: int,
    to: int,
    key: u64,
)
    requires
        history(states, ops),
        0 <= from <= to <= ops.len(),
        forall|i: int| from <= i < to ==> !(#[trigger] ops[i]).touches(key),
    ensures
        states[to].spec_lookup(key) == states[from].spec_lookup(key),
    decreases to - from,
{
    if from < to {
        law_untouched_key_stays(states, ops, from, to - 1, key);
        assert(!ops[to - 1].touches(key));
        assert(states[to - 1 + 1]@ == ops[to - 1].apply(states[to - 1]@));
    }
}

/// A pair that was inserted is what a lookup reports after any run of
/// insertions, removals and growths that neither removes that key nor
/// inserts it again.
pub proof fn law_round_trip(
    states: Seq<OpenAddressing>,
    ops: Seq<Op>,
    at: int,
    key: u64,
    value: u64,
)
    requires
        history(states, ops),
        0 <= at < ops.len(),
        ops[at] == (Op::Insert { key, value }),
        forall|i: int| at < i < ops.len() ==> !(#[trigger] ops[i]).touches(key),
    ensures
        states.last().spec_lookup(key) == Some(value),
{
    assert(states[at + 1]@ == ops[at].apply(states[at]@));
    law_untouched_key_stays(states, ops, at + 1, ops.len() as int, key);
}

/// Inserting a key twice in a row counts it once, and a lookup reports the
/// second value.
pub proof fn law_overwrite(
    first: OpenAddressing,
    second: OpenAddressing,
    start: Map<u64, u64>,
    key: u64,
    v1: u64,
    v2: u64,
)
    requires
        first.wf(),
        second.wf(),
        first@ == start.insert(key, v1),
        second@ == first@.insert(key, v2),
    ensures
        second.spec_len() == first.spec_len(),
        second.spec_lookup(key) == Some(v2),
{
    law_len_counts_keys(first);
    law_len_counts_keys(second);
    assert(second@.dom() =~= first@.dom());
}

/// After a key was removed, a lookup of it reports that it is absent.
pub proof fn law_remove_then_lookup(before: OpenAddressing, after: OpenAddressing, key: u64)
    requires
        after@ == before@.remove(key),
    ensures
        after.spec_lookup(key) is None,
{
}

/// Removing a key that was just removed finds nothing and changes nothing:
/// what the second removal reports is `None`, and the map stays as it was.
pub proof fn law_remove_twice(before: OpenAddressing, after: OpenAddressing, key: u64)
    requires
        after@ == before@.remove(key),
    ensures
        after.spec_lookup(key) is None,
        after@.remove(key) == after@,
{
    assert(after@.remove(key) =~= after@);
}

/// Growth keeps every pair: a key that is mapped still maps to its value
/// after any run of growths and of insertions and removals of other keys,
/// however many growths they force.
pub proof fn law_growth_keeps_pairs(states: Seq<OpenAddressing>, ops: Seq<Op>, key: u64)
    requires
        history(states, ops),
        states[0]@.contains_key(key),
        forall|i: int| 0 <= i < ops.len() ==> !(#[trigger] ops[i]).touches(key),
    ensures
        states.last()@.contains_key(key),
        states.last()@[key] == states[0]@[key],
{
    law_untouched_key_stays(states, ops, 0, ops.len() as int, key);
}

} // verus!
