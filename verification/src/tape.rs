//! The machine's memory: a growable sequence of byte cells, unbounded to the
//! right (grown lazily in blocks) and hard-bounded at zero on the left.

use vstd::prelude::*;

verus! {

/// The value of cell `i`: cells beyond the allocated prefix hold zero.
pub open spec fn cell_at(tape: Seq<u8>, i: int) -> u8 {
    if 0 <= i < tape.len() {
        tape[i]
    } else {
        0
    }
}

/// The tape after growing on demand to cover index `i`: untouched if `i` is
/// already in bounds, otherwise extended with zeroed cells up to a block of
/// 100 spare cells past `i`.
pub open spec fn grown(tape: Seq<u8>, i: int) -> Seq<u8> {
    if i < tape.len() {
        tape
    } else {
        tape + Seq::new((i + 100 - tape.len()) as nat, |_j: int| 0u8)
    }
}

/// Wrapping (mod 256) addition on cell values.
pub open spec fn wrap_add(a: u8, b: u8) -> u8 {
    ((a + b) % 256) as u8
}

/// Wrapping (mod 256) subtraction on cell values.
pub open spec fn wrap_sub(a: u8, b: u8) -> u8 {
    (((a - b) + 256) % 256) as u8
}

/// Grow `tape` in place until index `i` is in bounds, filling with zeroes.
pub fn grow_to(tape: &mut Vec<u8>, i: usize)
    requires
        i <= usize::MAX - 100,
    ensures
        final(tape)@ == grown(old(tape)@, i as int),
        i < final(tape).len(),
{
    if i >= tape.len() {
        tape.resize(i + 100, 0u8);
        assert(tape@ =~= grown(old(tape)@, i as int));
    }
}

} // verus!
