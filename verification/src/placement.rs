//! Where the samples carried beside a rebased scene bank have to be imported.

use vstd::prelude::*;

use crate::container::sample::SampleSlot;
use crate::render::{aligned, push_aligned, Align};
use crate::text::{decimal, push_decimal, push_str};

verus! {

/// The name of the sample at slot `was` (from 1) among `names`, or a note that the file has none.
pub open spec fn slot_name(names: Seq<SampleSlot>, was: u16) -> Seq<char>
    decreases names.len(),
{
    if names.len() == 0 {
        "<not in this file>"@
    } else if names[0].index + 1 == was {
        names[0].name@
    } else {
        slot_name(names.drop_first(), was)
    }
}

/// The line that places the sample at old slot `was`, carried `pos`th (from 0), at slot `now`.
pub open spec fn placement_line(pos: int, name: Seq<char>, now: int, was: u16) -> Seq<char> {
    "    "@ + aligned(decimal((pos + 1) as nat), 2, Align::Right) + ". "@
        + aligned(name, 20, Align::Left) + " → slot "@ + aligned(
        decimal(now as nat),
        5,
        Align::Left,
    ) + " (was "@ + decimal(was as nat) + ")\n"@
}

/// The placement lines of the first `n` carried slots.
pub open spec fn placement_lines(slots: Seq<u16>, base: u16, names: Seq<SampleSlot>, n: int) -> Seq<
    char,
>
    decreases n,
{
    if n <= 0 {
        Seq::empty()
    } else {
        placement_lines(slots, base, names, n - 1) + placement_line(
            n - 1,
            slot_name(names, slots[n - 1]),
            base + n - 1,
            slots[n - 1],
        )
    }
}

fn name_of_slot(names: &Vec<SampleSlot>, was: u16) -> (s: String)
    ensures
        s@ == slot_name(names@, was),
{
    let mut i: usize = 0;
    assert(names@.skip(0) =~= names@);
    while i < names.len()
        invariant
            i <= names@.len(),
            slot_name(names@, was) == slot_name(names@.skip(i as int), was),
        decreases names@.len() - i,
    {
        assert(names@.skip(i as int)[0] == names@[i as int]);
        assert(names@.skip(i as int).drop_first() =~= names@.skip(i + 1));
        if names[i].index < usize::MAX && names[i].index + 1 == was as usize {
            let mut s = String::new();
            push_str(&mut s, names[i].name.as_str());
            return s;
        }
        i = i + 1;
    }
    let mut s = String::new();
    push_str(&mut s, "<not in this file>");
    s
}

fn push_placement(s: &mut String, pos: u64, name: &str, now: u64, was: u16)
    requires
        pos < u64::MAX,
    ensures
        final(s)@ == old(s)@ + placement_line(pos as int, name@, now as int, was),
{
    let mut p = String::new();
    push_decimal(&mut p, pos + 1);
    let mut n = String::new();
    push_decimal(&mut n, now);
    push_str(s, "    ");
    push_aligned(s, p.as_str(), 2, Align::Right);
    push_str(s, ". ");
    push_aligned(s, name, 20, Align::Left);
    push_str(s, " → slot ");
    push_aligned(s, n.as_str(), 5, Align::Left);
    push_str(s, " (was ");
    push_decimal(s, was as u64);
    push_str(s, ")\n");
    assert(s@ =~= old(s)@ + placement_line(pos as int, name@, now as int, was));
}

/// Where each sample carried beside a rebased bank has to be imported: the instrument asks, and
/// the bank finds its audio only at the slots the rebase gave it.
pub fn placement_text(slots: &[u16], base: u16, names: &Vec<SampleSlot>) -> (s: String)
    requires
        base + slots@.len() <= u64::MAX,
    ensures
        s@ == "the instrument asks where each sample goes — assign them exactly like this, or the\nbank will not find them:\n\n"@
            + placement_lines(slots@, base, names@, slots@.len() as int) + "\n"@,
{
    let mut s = String::new();
    push_str(
        &mut s,
        "the instrument asks where each sample goes — assign them exactly like this, or the\nbank will not find them:\n\n",
    );
    let ghost head = s@;
    let mut i: usize = 0;
    assert(names@.skip(0) =~= names@);
    while i < slots.len()
        invariant
            i <= slots@.len(),
            base + slots@.len() <= u64::MAX,
            s@ == head + placement_lines(slots@, base, names@, i as int),
        decreases slots@.len() - i,
    {
        let was = slots[i];
        let name = name_of_slot(names, was);
        push_placement(&mut s, i as u64, name.as_str(), base as u64 + i as u64, was);
        i = i + 1;
    }
    push_str(&mut s, "\n");
    s
}

} // verus!
