//! The table as text: a short form that lists the live entries, and a long
//! form that lists the counters and every slot.
use vstd::prelude::*;
use crate::slot::Elem;
use crate::table::OpenAddressing;

verus! {

/// The character of the decimal digit `d`.
pub open spec fn digit(d: nat) -> char
    recommends
        d < 10,
{
    "0123456789"@[d as int]
}

/// `n` in decimal: its digits from the most significant to the least, with
/// no sign and no leading zero.
pub open spec fn decimal(n: nat) -> Seq<char>
    decreases n,
{
    if n < 10 {
        seq![digit(n)]
    } else {
        decimal(n / 10).push(digit(n % 10))
    }
}

/// The short form of one slot: `key: value,` for an occupied slot, nothing
/// for any other.
pub open spec fn entry_text(e: Elem) -> Seq<char> {
    if e.occupied() {
        decimal(e.spec_key() as nat) + ": "@ + decimal(e.spec_value() as nat) + ","@
    } else {
        Seq::<char>::empty()
    }
}

/// The short forms of the slots, in the order of the array.
pub open spec fn entries_text(s: Seq<Elem>) -> Seq<char>
    decreases s.len(),
{
    if s.len() == 0 {
        Seq::<char>::empty()
    } else {
        entries_text(s.drop_last()) + entry_text(s.last())
    }
}

/// The long form of slot `index`: `(index: i, key: k, value: v),` whatever
/// the slot's state.
pub open spec fn slot_text(index: nat, e: Elem) -> Seq<char> {
    "(index: "@ + decimal(index) + ", key: "@ + decimal(e.spec_key() as nat) + ", value: "@ + decimal(
        e.spec_value() as nat,
    ) + "),"@
}

/// The long forms of the slots, in the order of the array.
pub open spec fn slots_text(s: Seq<Elem>) -> Seq<char>
    decreases s.len(),
{
    if s.len() == 0 {
        Seq::<char>::empty()
    } else {
        slots_text(s.drop_last()) + slot_text((s.len() - 1) as nat, s.last())
    }
}

/// The text of one decimal digit.
fn digit_text(d: u64) -> (t: &'static str)
    requires
        d < 10,
    ensures
        t@ == seq![digit(d as nat)],
{
    proof {
        reveal_strlit("0123456789");
        reveal_strlit("0");
        reveal_strlit("1");
        reveal_strlit("2");
        reveal_strlit("3");
        reveal_strlit("4");
        reveal_strlit("5");
        reveal_strlit("6");
        reveal_strlit("7");
        reveal_strlit("8");
        reveal_strlit("9");
    }
    let t: &'static str = if d == 0 {
        "0"
    } else if d == 1 {
        "1"
    } else if d == 2 {
        "2"
    } else if d == 3 {
        "3"
    } else if d == 4 {
        "4"
    } else if d == 5 {
        "5"
    } else if d == 6 {
        "6"
    } else if d == 7 {
        "7"
    } else if d == 8 {
        "8"
    } else {
        "9"
    };
    assert(t@ =~= seq![digit(d as nat)]);
    t
}

/// `n` in decimal.
pub fn decimal_text(n: u64) -> (out: String)
    ensures
        out@ == decimal(n as nat),
{
    let mut rest: u64 = n;
    let mut low: String = String::from_str("");
    proof {
        reveal_strlit("");
        assert(decimal(rest as nat) + low@ =~= decimal(n as nat));
    }
    while rest >= 10
        invariant
            decimal(rest as nat) + low@ == decimal(n as nat),
        decreases rest,
    {
        let mut t: String = String::from_str(digit_text(rest % 10));
        t.append(low.as_str());
        proof {
            assert(decimal((rest / 10) as nat) + t@ =~= decimal(rest as nat) + low@);
        }
        low = t;
        rest = rest / 10;
    }
    let mut out: String = String::from_str(digit_text(rest));
    out.append(low.as_str());
    out
}

impl OpenAddressing {
    /// The short form of the table: `{`, then `key: value,` for each live
    /// entry in the order of the slots, then `}`.
    pub fn render(&self) -> (out: String)
        requires
            self.wf(),
        ensures
            out@ == "{"@ + entries_text(self.slots()) + "}"@,
    {
        let n: usize = self.capacity();
        let mut out: String = String::from_str("{");
        let mut i: usize = 0;
        while i < n
            invariant
                i <= n,
                n == self.slots().len(),
                out@ == "{"@ + entries_text(self.slots().take(i as int)),
            decreases n - i,
        {
            let e: Elem = self.slot(i);
            proof {
                assert(self.slots().take(i + 1).drop_last() =~= self.slots().take(i as int));
            }
            if e.is_occupied() {
                let ghost before = out@;
                out.append(decimal_text(e.key()).as_str());
                out.append(": ");
                out.append(decimal_text(e.value()).as_str());
                out.append(",");
                proof {
                    assert(out@ =~= before + entry_text(e));
                    assert(out@ =~= "{"@ + entries_text(self.slots().take(i + 1)));
                }
            } else {
                proof {
                    assert(out@ =~= "{"@ + entries_text(self.slots().take(i + 1)));
                }
            }
            i += 1;
        }
        proof {
            assert(self.slots().take(n as int) =~= self.slots());
        }
        out.append("}");
        out
    }

    /// The long form of the table: the count, the capacity and the free
    /// count, then every slot with its index, its key and its value.
    pub fn dump(&self) -> (out: String)
        requires
            self.wf(),
        ensures
            out@ == "len: "@ + decimal(self.spec_len()) + ", cap: "@ + decimal(self.spec_capacity())
                + ", empty: "@ + decimal(self.spec_free()) + ", content: {"@ + slots_text(self.slots())
                + "}"@,
    {
        let n: usize = self.capacity();
        let mut out: String = String::from_str("len: ");
        out.append(decimal_text(self.len() as u64).as_str());
        out.append(", cap: ");
        out.append(decimal_text(self.capacity() as u64).as_str());
        out.append(", empty: ");
        out.append(decimal_text(self.free() as u64).as_str());
        out.append(", content: {");
        let ghost head = out@;
        proof {
            assert(out@ =~= head + slots_text(self.slots().take(0)));
        }
        let mut i: usize = 0;
        while i < n
            invariant
                i <= n,
                n == self.slots().len(),
                out@ == head + slots_text(self.slots().take(i as int)),
            decreases n - i,
        {
            let e: Elem = self.slot(i);
            let ghost before = out@;
            proof {
                assert(self.slots().take(i + 1).drop_last() =~= self.slots().take(i as int));
            }
            out.append("(index: ");
            out.append(decimal_text(i as u64).as_str());
            out.append(", key: ");
            out.append(decimal_text(e.key()).as_str());
            out.append(", value: ");
            out.append(decimal_text(e.value()).as_str());
            out.append("),");
            proof {
                assert(out@ =~= before + slot_text(i as nat, e));
                assert(out@ =~= head + slots_text(self.slots().take(i + 1)));
            }
            i += 1;
        }
        proof {
            assert(self.slots().take(n as int) =~= self.slots());
        }
        out.append("}");
        out
    }
}

} // verus!
