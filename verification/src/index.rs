//! Index arithmetic shared by candidate lists that wrap around.

use vstd::prelude::*;
use vstd::arithmetic::div_mod::{lemma_add_mod_noop, lemma_mod_add_multiples_vanish, lemma_sub_mod_noop};

verus! {

/// Moves `delta` steps from `current` in a ring of `len` slots: the
/// Euclidean remainder of `current + delta` by `len`.
pub fn wrap_index(current: usize, len: usize, delta: isize) -> (r: usize)
    requires
        len > 0,
    ensures
        r as int == (current + delta) % (len as int),
        r < len,
{
    let cur = (current % len) as u128;
    let pc = len as u128;
    let ghost cp = current as int;
    let ghost dir = delta as int;
    let ghost pci = len as int;
    if delta >= 0 {
        let d = (delta as u128) % pc;
        proof {
            lemma_add_mod_noop(cp, dir, pci);
        }
        ((cur + d) % pc) as usize
    } else {
        let m: u128 = if delta == isize::MIN {
            (isize::MAX as u128) + 1
        } else {
            (-delta) as u128
        };
        let d = m % pc;
        proof {
            lemma_sub_mod_noop(cp, m as int, pci);
            lemma_mod_add_multiples_vanish(cur - d, pci);
            assert(cp - m == cp + dir);
        }
        ((cur + pc - d) % pc) as usize
    }
}

} // verus!
