//! One cell of the slot array.
use vstd::prelude::*;

verus! {

/// A slot of the table.
///
/// A slot is in one of three states: *vacant* (never held an entry),
/// *occupied* (holds a live entry) or *retired* (held an entry that was
/// removed: a tombstone). The key and the value mean something to a reader
/// only while the slot is occupied.
#[derive(Copy, Clone, Debug)]
pub struct Elem {
    pub key: u64,
    pub value: u64,
    occupied: bool,
    touched: bool,
}

impl Elem {
    /// The key field, as contracts see it.
    pub closed spec fn spec_key(&self) -> u64 {
        self.key
    }

    /// The value field, as contracts see it.
    pub closed spec fn spec_value(&self) -> u64 {
        self.value
    }

    /// Whether the slot holds a live entry.
    pub closed spec fn occupied(&self) -> bool {
        self.occupied
    }

    /// Whether the slot has ever held an entry (occupied or retired).
    pub closed spec fn touched(&self) -> bool {
        self.touched
    }

    /// A slot never leaves the touched state, and only a touched slot is occupied.
    pub open spec fn wf(&self) -> bool {
        self.occupied() ==> self.touched()
    }

    /// An occupied slot holding `k -> v`.
    pub fn new(k: &u64, v: &u64) -> (e: Elem)
        ensures
            e.spec_key() == *k,
            e.spec_value() == *v,
            e.occupied(),
            e.touched(),
    {
        Elem { key: *k, value: *v, occupied: true, touched: true }
    }

    /// A slot that has never held an entry.
    pub fn vacant() -> (e: Elem)
        ensures
            e.spec_key() == 0,
            e.spec_value() == 0,
            !e.occupied(),
            !e.touched(),
    {
        Elem { key: 0, value: 0, occupied: false, touched: false }
    }

    /// The tombstone left behind when this slot's entry is removed. The key
    /// and the value stay readable for diagnostics.
    pub fn retired(self) -> (e: Elem)
        ensures
            e.spec_key() == self.spec_key(),
            e.spec_value() == self.spec_value(),
            !e.occupied(),
            e.touched(),
    {
        Elem { key: self.key, value: self.value, occupied: false, touched: true }
    }

    pub fn key(&self) -> (k: u64)
        ensures
            k == self.spec_key(),
    {
        self.key
    }

    pub fn value(&self) -> (v: u64)
        ensures
            v == self.spec_value(),
    {
        self.value
    }

    pub fn is_occupied(&self) -> (b: bool)
        ensures
            b == self.occupied(),
    {
        self.occupied
    }

    pub fn is_touched(&self) -> (b: bool)
        ensures
            b == self.touched(),
    {
        self.touched
    }
}

impl Default for Elem {
    /// The occupied slot `0 -> 0`.
    fn default() -> (e: Elem)
        ensures
            e.spec_key() == 0,
            e.spec_value() == 0,
            e.occupied(),
            e.touched(),
    {
        Elem { key: 0, value: 0, occupied: true, touched: true }
    }
}

} // verus!
