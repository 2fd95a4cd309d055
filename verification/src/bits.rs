//! Bit-level vocabulary of the trie: the mask of bits below a branch
//! position, the shared prefix a subtree's keys agree on, and the routing
//! decision at an internal node, together with the bit-vector lemmas the
//! locate and splice algorithms rest on.

use vstd::prelude::*;

verus! {

/// The mask selecting the bits strictly below position `b`,
/// i.e. `(1 << b) - 1` for `b < 64`.
pub(crate) open spec fn low_mask(b: u64) -> u64 {
    !(0xffff_ffff_ffff_ffffu64 << b)
}

/// The bits of `key` strictly below position `b`: what every key stored
/// under an internal node branching on bit `b` has in common.
pub(crate) open spec fn prefix_below(key: u64, b: u64) -> u64 {
    key & low_mask(b)
}

/// Whether `key` is routed to the left child at a node branching on bit
/// `b`: left holds the keys whose bit `b` is clear.
pub(crate) open spec fn routes_left(key: u64, b: u64) -> bool {
    key & (1u64 << b) == 0
}

/// Masking a prefix again changes nothing, so a freshly computed
/// `key & low_mask(b)` is a legitimate stored prefix.
pub(crate) proof fn lemma_prefix_idempotent(key: u64, b: u64)
    by (bit_vector)
    ensures
        prefix_below(prefix_below(key, b), b) == prefix_below(key, b),
{
}

/// Two words whose difference has its lowest set bit at `b` share the
/// prefix below `b` and are routed to opposite children at `b`.
pub(crate) proof fn lemma_diverge_routes(x: u64, y: u64, b: u64)
    by (bit_vector)
    requires
        b < 64,
        (x ^ y) & low_mask(b) == 0,
        (x ^ y) & (1u64 << b) != 0,
    ensures
        prefix_below(x, b) == prefix_below(y, b),
        routes_left(x, b) != routes_left(y, b),
{
}

/// Agreement below a high position `c` carries down to any lower position
/// `b`: the prefixes below `b` agree and bit `b` itself agrees.
pub(crate) proof fn lemma_prefix_refines(k: u64, y: u64, b: u64, c: u64)
    by (bit_vector)
    requires
        b < c,
        c < 64,
        prefix_below(k, c) == prefix_below(y, c),
    ensures
        prefix_below(k, b) == prefix_below(y, b),
        routes_left(k, b) == routes_left(y, b),
{
}

/// The lowest set bit `b` of `d` lies below `c` whenever `d` has some set
/// bit below `c`.
pub(crate) proof fn lemma_lowest_bit_below(d: u64, b: u64, c: u64)
    by (bit_vector)
    requires
        b < 64,
        c < 64,
        d & low_mask(b) == 0,
        d & (1u64 << b) != 0,
        d & low_mask(c) != 0,
    ensures
        b < c,
{
}

/// Words whose prefixes below `c` differ have a difference with a set bit
/// below `c`; in particular the difference is not zero.
pub(crate) proof fn lemma_prefix_mismatch_sets_low(x: u64, y: u64, c: u64)
    by (bit_vector)
    requires
        prefix_below(x, c) != prefix_below(y, c),
    ensures
        (x ^ y) & low_mask(c) != 0,
        x ^ y != 0,
{
}

/// If every bit of `d` strictly below `b` is clear, then masking `d` to
/// the bits below `b` yields zero.
pub(crate) proof fn lemma_bits_clear_to_mask(d: u64, b: u64)
    requires
        b <= 64,
        forall|j: u64| j < b ==> #[trigger] (d >> j) & 1u64 == 0u64,
    ensures
        d & low_mask(b) == 0,
    decreases b,
{
    if b == 0 {
        assert(d & low_mask(0) == 0) by (bit_vector);
    } else {
        let p: u64 = (b - 1) as u64;
        lemma_bits_clear_to_mask(d, p);
        assert((d >> p) & 1u64 == 0u64);
        assert(d & low_mask(b) == 0) by (bit_vector)
            requires
                1 <= b <= 64,
                p == (b - 1) as u64,
                d & low_mask(p) == 0,
                (d >> p) & 1u64 == 0u64,
        ;
    }
}

/// The position of the lowest set bit of a nonzero word, computed with
/// `u64::trailing_zeros`: the bits below it are clear and the bit itself
/// is set.
pub(crate) fn lowest_set_bit(d: u64) -> (b: u64)
    requires
        d != 0,
    ensures
        b < 64,
        d & low_mask(b) == 0,
        d & (1u64 << b) != 0,
{
    let t: u32 = d.trailing_zeros();
    proof {
        vstd::std_specs::bits::axiom_u64_trailing_zeros(d);
        let b: u64 = t as u64;
        assert(d & (1u64 << b) != 0) by (bit_vector)
            requires
                b < 64,
                (d >> b) & 1u64 == 1u64,
        ;
        lemma_bits_clear_to_mask(d, b);
    }
    t as u64
}

} // verus!
