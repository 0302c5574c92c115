//! Killmail → fit reconstruction.
//!
//! A public ESI killmail lists the victim's fitted items with dogma slot
//! flags. The slot mapping and the EFT text assembly live here; the fetch is
//! the shell's.

use vstd::prelude::*;
use crate::text::{append_chars, append_str, chars_of, dec, string_from_chars, trim_end, trim_end_bound};

verus! {

/// One victim item off the killmail (only what reconstruction needs).
#[derive(Debug, Clone, Copy, PartialEq, Eq, Structural)]
pub struct KmItem {
    pub item_type_id: i64,
    /// Dogma location flag (which slot/bay the item sat in).
    pub flag: i64,
    pub quantity_destroyed: Option<i64>,
    pub quantity_dropped: Option<i64>,
}

/// A missing quantity counts as zero.
pub open spec fn qty_or_zero(q: Option<i64>) -> int {
    match q {
        Some(v) => v as int,
        None => 0,
    }
}

impl KmItem {
    /// Units destroyed plus units dropped.
    pub fn quantity(&self) -> (r: i64)
        requires
            i64::MIN <= qty_or_zero(self.quantity_destroyed) + qty_or_zero(self.quantity_dropped)
                <= i64::MAX,
        ensures
            r == qty_or_zero(self.quantity_destroyed) + qty_or_zero(self.quantity_dropped),
    {
        let a = match self.quantity_destroyed {
            Some(v) => v,
            None => 0,
        };
        let b = match self.quantity_dropped {
            Some(v) => v,
            None => 0,
        };
        a + b
    }
}

/// The killmail victim.
#[derive(Debug, Clone, PartialEq, Eq)]
pub struct KmVictim {
    pub character_id: Option<i64>,
    pub ship_type_id: i64,
    pub items: Vec<KmItem>,
}

/// A killmail (ESI `GET /killmails/{id}/{hash}/`, public).
#[derive(Debug, Clone, PartialEq, Eq)]
pub struct Killmail {
    pub killmail_id: i64,
    pub solar_system_id: i64,
    pub victim: KmVictim,
}

/// Fitting sections a killmail item can land in, in EFT section order.
#[derive(Debug, Clone, Copy, PartialEq, Eq, Structural, PartialOrd, Ord, Hash)]
pub enum Slot {
    Low,
    Mid,
    High,
    Rig,
    Subsystem,
    Drone,
    Cargo,
}

/// The fitting section of a dogma location flag, if it is part of a fit.
pub open spec fn slot_spec(flag: int) -> Option<Slot> {
    if 11 <= flag <= 18 {
        Some(Slot::Low)
    } else if 19 <= flag <= 26 {
        Some(Slot::Mid)
    } else if 27 <= flag <= 34 {
        Some(Slot::High)
    } else if 92 <= flag <= 94 {
        Some(Slot::Rig)
    } else if 125 <= flag <= 128 {
        Some(Slot::Subsystem)
    } else if flag == 87 {
        Some(Slot::Drone)
    } else if flag == 5 {
        Some(Slot::Cargo)
    } else {
        None
    }
}

/// Map an ESI dogma location flag to a fitting section. `None` = not part of
/// the fit (implants, structure bays, …).
pub fn slot_of(flag: i64) -> (r: Option<Slot>)
    ensures
        r == slot_spec(flag as int),
{
    if 11 <= flag && flag <= 18 {
        Some(Slot::Low)
    } else if 19 <= flag && flag <= 26 {
        Some(Slot::Mid)
    } else if 27 <= flag && flag <= 34 {
        Some(Slot::High)
    } else if 92 <= flag && flag <= 94 {
        Some(Slot::Rig)
    } else if 125 <= flag && flag <= 128 {
        Some(Slot::Subsystem)
    } else if flag == 87 {
        Some(Slot::Drone)
    } else if flag == 5 {
        Some(Slot::Cargo)
    } else {
        None
    }
}

/// A quantity of at least one.
pub open spec fn at_least_one(q: i64) -> nat {
    if q < 1 {
        1
    } else {
        q as nat
    }
}

/// `s` written `n` times.
pub open spec fn repeat(s: Seq<char>, n: nat) -> Seq<char>
    decreases n,
{
    if n == 0 {
        seq![]
    } else {
        repeat(s, (n - 1) as nat) + s
    }
}

/// Whether an item of `items` sits in section `s`.
pub open spec fn any_in(items: Seq<(Slot, String, i64)>, s: Slot) -> bool {
    exists|i: int| 0 <= i < items.len() && (#[trigger] items[i]).0 == s
}

/// The module lines of section `s`: one line per unit.
pub open spec fn module_lines(items: Seq<(Slot, String, i64)>, s: Slot) -> Seq<char>
    decreases items.len(),
{
    if items.len() == 0 {
        seq![]
    } else {
        let it = items.last();
        module_lines(items.drop_last(), s) + if it.0 == s {
            repeat(it.1@ + seq!['\n'], at_least_one(it.2))
        } else {
            seq![]
        }
    }
}

/// The stack lines of section `s`: one `Name xN` line per item.
pub open spec fn stack_lines(items: Seq<(Slot, String, i64)>, s: Slot) -> Seq<char>
    decreases items.len(),
{
    if items.len() == 0 {
        seq![]
    } else {
        let it = items.last();
        stack_lines(items.drop_last(), s) + if it.0 == s {
            it.1@ + " x"@ + dec(at_least_one(it.2)) + seq!['\n']
        } else {
            seq![]
        }
    }
}

/// A section followed by a blank line, or nothing when it is empty.
pub open spec fn section(body: Seq<char>, any: bool) -> Seq<char> {
    if any {
        body + seq!['\n']
    } else {
        seq![]
    }
}

/// The EFT text [`build_eft`] produces.
pub open spec fn eft_text(ship: Seq<char>, fit: Seq<char>, items: Seq<(Slot, String, i64)>) -> Seq<char> {
    let all = "["@ + ship + ", "@ + fit + "]"@ + seq!['\n']
        + section(module_lines(items, Slot::Low), any_in(items, Slot::Low))
        + section(module_lines(items, Slot::Mid), any_in(items, Slot::Mid))
        + section(module_lines(items, Slot::High), any_in(items, Slot::High))
        + section(module_lines(items, Slot::Rig), any_in(items, Slot::Rig))
        + section(module_lines(items, Slot::Subsystem), any_in(items, Slot::Subsystem))
        + section(stack_lines(items, Slot::Drone), any_in(items, Slot::Drone))
        + section(stack_lines(items, Slot::Cargo), any_in(items, Slot::Cargo));
    trim_end(all) + seq!['\n']
}

fn push_section(out: &mut Vec<char>, items: &[(Slot, String, i64)], s: Slot, stacked: bool)
    ensures
        final(out)@ == old(out)@ + section(
            if stacked {
                stack_lines(items@, s)
            } else {
                module_lines(items@, s)
            },
            any_in(items@, s),
        ),
{
    let ghost start = out@;
    let mut any = false;
    let mut i: usize = 0;
    while i < items.len()
        invariant
            i <= items@.len(),
            out@ == start + if stacked {
                stack_lines(items@.take(i as int), s)
            } else {
                module_lines(items@.take(i as int), s)
            },
            any == any_in(items@.take(i as int), s),
            !any ==> out@ == start,
        decreases items@.len() - i,
    {
        let ghost pre = items@.take(i as int);
        let ghost body_before = out@;
        proof {
            assert(items@.take(i + 1).drop_last() =~= pre);
            assert(items@.take(i + 1).last() == items@[i as int]);
        }
        let (slot, name, qty) = (&items[i].0, &items[i].1, items[i].2);
        let n = chars_of(name.as_str());
        if *slot == s {
            if stacked {
                append_chars(out, &n);
                append_str(out, " x");
                let q: i64 = if qty < 1 {
                    1
                } else {
                    qty
                };
                let d = usize_to_string_i64(q);
                append_chars(out, &d);
                out.push('\n');
                proof {
                    assert(out@ =~= body_before + (n@ + " x"@ + dec(at_least_one(qty)) + seq!['\n']));
                }
            } else {
                let q: i64 = if qty < 1 {
                    1
                } else {
                    qty
                };
                let mut line = n.clone();
                line.push('\n');
                let mut k: i64 = 0;
                while k < q
                    invariant
                        0 <= k <= q,
                        out@ == body_before + repeat(line@, k as nat),
                    decreases q - k,
                {
                    append_chars(out, &line);
                    k += 1;
                }
                proof {
                    assert(line@ =~= n@ + seq!['\n']);
                }
            }
            any = true;
            proof {
                assert(items@.take(i + 1)[i as int].0 == s);
            }
        } else {
            proof {
                assert(out@ =~= body_before + seq![]);
                if any_in(items@.take(i + 1), s) {
                    let j = choose|j: int| 0 <= j < items@.take(i + 1).len() && (#[trigger] items@.take(i + 1)[j]).0 == s;
                    assert(j < i);
                    assert(pre[j] == items@.take(i + 1)[j]);
                }
            }
        }
        proof {
            if any_in(pre, s) {
                let j = choose|j: int| 0 <= j < pre.len() && (#[trigger] pre[j]).0 == s;
                assert(items@.take(i + 1)[j] == pre[j]);
            }
        }
        i += 1;
    }
    assert(items@.take(i as int) =~= items@);
    let ghost body_all = out@;
    if any {
        out.push('\n');
        assert(out@ =~= start + (body_all.subrange(start.len() as int, body_all.len() as int) + seq!['\n']));
    }
    assert(body_all =~= start + body_all.subrange(start.len() as int, body_all.len() as int));
}

fn usize_to_string_i64(q: i64) -> (r: Vec<char>)
    requires
        q >= 1,
    ensures
        r@ == dec(q as nat),
{
    crate::text::dec_chars(q as u64)
}

/// Build EFT text from named, slotted items: modules list one line per unit
/// in low, mid, high, rig, subsystem order; drones and cargo collapse to
/// `Name xN`; each non-empty section ends with a blank line; trailing
/// whitespace is trimmed and one newline ends the text.
pub fn build_eft(ship_name: &str, fit_name: &str, items: &[(Slot, String, i64)]) -> (r: String)
    ensures
        r@ == eft_text(ship_name@, fit_name@, items@),
{
    let mut out: Vec<char> = Vec::new();
    append_str(&mut out, "[");
    append_str(&mut out, ship_name);
    append_str(&mut out, ", ");
    append_str(&mut out, fit_name);
    append_str(&mut out, "]");
    out.push('\n');
    push_section(&mut out, items, Slot::Low, false);
    push_section(&mut out, items, Slot::Mid, false);
    push_section(&mut out, items, Slot::High, false);
    push_section(&mut out, items, Slot::Rig, false);
    push_section(&mut out, items, Slot::Subsystem, false);
    push_section(&mut out, items, Slot::Drone, true);
    push_section(&mut out, items, Slot::Cargo, true);
    proof {
        assert(out@.take(out@.len() as int) =~= out@);
        let ghost items_s = items@;
        assert(out@ =~= "["@ + ship_name@ + ", "@ + fit_name@ + "]"@ + seq!['\n']
            + section(module_lines(items_s, Slot::Low), any_in(items_s, Slot::Low))
            + section(module_lines(items_s, Slot::Mid), any_in(items_s, Slot::Mid))
            + section(module_lines(items_s, Slot::High), any_in(items_s, Slot::High))
            + section(module_lines(items_s, Slot::Rig), any_in(items_s, Slot::Rig))
            + section(module_lines(items_s, Slot::Subsystem), any_in(items_s, Slot::Subsystem))
            + section(stack_lines(items_s, Slot::Drone), any_in(items_s, Slot::Drone))
            + section(stack_lines(items_s, Slot::Cargo), any_in(items_s, Slot::Cargo)));
    }
    let b = trim_end_bound(&out, out.len());
    out.truncate(b);
    out.push('\n');
    let res = out;
    string_from_chars(&res)
}

} // verus!
