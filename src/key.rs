//! Decomposition of a key into nibbles.

use vstd::prelude::*;
use vstd::arithmetic::div_mod::{lemma_mod_breakdown, lemma_small_mod};
use vstd::arithmetic::power2::{lemma_pow2_adds, lemma_pow2_pos, lemma_pow2_strictly_increases, lemma2_to64, pow2};
use vstd::bits::{lemma_usize_low_bits_mask_is_mod, lemma_usize_shr_is_div, low_bits_mask};
use vstd::layout::unsigned_int_max_values;

verus! {

/// Number of slots in a branch: one per nibble value.
pub const FANOUT: usize = 16;

/// The nibble of `k` at depth `d`: bits `[4d, 4d + 4)`.
pub open spec fn nibble(k: usize, d: nat) -> nat {
    (k as nat / pow2(4 * d)) % 16
}

/// `a` and `b` have the same nibbles at every depth below `d`.
pub open spec fn agree(a: usize, b: usize, d: nat) -> bool {
    forall|j: nat| j < d ==> #[trigger] nibble(a, j) == nibble(b, j)
}

/// `d` is a depth at which a nibble can still be read from a key.
pub open spec fn depth_in_range(d: nat) -> bool {
    4 * d < usize::BITS
}

/// Keys that agree below `d` agree modulo `16^d`.
proof fn lemma_agree_mod(a: usize, b: usize, d: nat)
    requires
        agree(a, b, d),
    ensures
        a as nat % pow2(4 * d) == b as nat % pow2(4 * d),
    decreases d,
{
    lemma2_to64();
    if d == 0 {
        assert(a as nat % 1 == 0 && b as nat % 1 == 0);
    } else {
        let e = (4 * (d - 1)) as nat;
        assert(agree(a, b, (d - 1) as nat));
        lemma_agree_mod(a, b, (d - 1) as nat);
        lemma_pow2_pos(e);
        lemma_pow2_adds(e, 4);
        assert(4 * d == e + 4);
        assert(nibble(a, (d - 1) as nat) == nibble(b, (d - 1) as nat));
        lemma_mod_breakdown(a as int, pow2(e) as int, 16);
        lemma_mod_breakdown(b as int, pow2(e) as int, 16);
    }
}

/// Keys that agree on every nibble the word holds are equal: a descent that
/// follows two distinct keys stops before it runs out of nibbles.
pub proof fn lemma_agree_all(a: usize, b: usize, d: nat)
    requires
        agree(a, b, d),
        !depth_in_range(d),
    ensures
        a == b,
{
    lemma_agree_mod(a, b, d);
    unsigned_int_max_values();
    if usize::BITS < 4 * d {
        lemma_pow2_strictly_increases(usize::BITS as nat, 4 * d);
    }
    lemma_small_mod(a as nat, pow2(4 * d));
    lemma_small_mod(b as nat, pow2(4 * d));
}

/// Extends agreement by one level.
pub proof fn lemma_agree_step(a: usize, b: usize, d: nat)
    requires
        agree(a, b, d),
        nibble(a, d) == nibble(b, d),
    ensures
        agree(a, b, d + 1),
{
    assert forall|j: nat| j < d + 1 implies #[trigger] nibble(a, j) == nibble(b, j) by {
        if j < d {
            assert(nibble(a, j) == nibble(b, j));
        }
    }
}

/// The slot that `key` selects at `depth` in a table of `len` slots: the
/// bits from `4 * depth` up of `key`, masked with `len - 1`. When `len` is a
/// power of two that is those bits reduced modulo `len`.
pub fn index(key: usize, depth: usize, len: usize) -> (r: usize)
    requires
        depth_in_range(depth as nat),
        len > 0,
    ensures
        r == (key >> (4 * depth) as usize) & ((len - 1) as usize),
        r < len,
        (exists|b: nat| b < usize::BITS && pow2(b) == len) ==> r == (key as nat / pow2(4 * depth as nat)) % (len as nat),
{
    let shift: usize = 4 * depth;
    let shifted: usize = key >> shift;
    let mask: usize = len - 1;
    let r: usize = shifted & mask;
    proof {
        assert(shifted & mask <= mask) by (bit_vector);
        if exists|b: nat| b < usize::BITS && pow2(b) == len {
            let b = choose|b: nat| b < usize::BITS && pow2(b) == len;
            lemma_usize_shr_is_div(key, shift);
            lemma_pow2_pos(b);
            lemma_usize_low_bits_mask_is_mod(shifted, b);
            assert(low_bits_mask(b) as usize == len - 1);
        }
    }
    r
}

/// The nibble of `key` at `depth`.
pub fn nibble_at(key: usize, depth: usize) -> (r: usize)
    requires
        depth_in_range(depth as nat),
    ensures
        r as nat == nibble(key, depth as nat),
        r < FANOUT,
{
    proof {
        lemma2_to64();
        assert(pow2(4) == FANOUT);
    }
    index(key, depth, FANOUT)
}

} // verus!
