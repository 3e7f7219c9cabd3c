//! Byte-level decomposition of 64-bit keys.
//!
//! A key is consumed least-significant byte first: byte `d` selects the slot
//! at level `d` of the tree.  The first `d` bytes of a key form its prefix at
//! level `d`; two keys route through the same level-`d` table exactly when
//! their prefixes agree.

use vstd::prelude::*;

verus! {

/// Byte `d` (least-significant first) of the key `h`.
pub open spec fn byte_of(h: u64, d: u64) -> u64 {
    (h >> ((8 * d) as u64)) & 0xff
}

/// Mask selecting the low `8 * d` bits of a key, for `d <= 7`.
pub open spec fn prefix_mask(d: u64) -> u64 {
    ((1u64 << ((8 * d) as u64)) - 1) as u64
}

/// The low `d` bytes of `h`: the part consumed after `d` table hops.
pub open spec fn prefix_of(h: u64, d: u64) -> u64 {
    h & prefix_mask(d)
}

/// A stored key `k` answers a masked query `(h, mask)` when it agrees with
/// `h` on every significant bit: a mask bit of 0 is significant, a mask bit
/// of 1 is a wildcard.
pub open spec fn masked_matches(k: u64, h: u64, mask: u64) -> bool {
    k & !mask == h & !mask
}

/// A byte of a key is always a valid slot index.
pub proof fn lemma_byte_bound(h: u64, d: u64)
    ensures
        byte_of(h, d) < 256,
{
    assert((h >> ((8 * d) as u64)) & 0xff < 256) by (bit_vector);
}

/// No key has any bits below level 0.
pub proof fn lemma_prefix_zero(h: u64)
    ensures
        prefix_of(h, 0) == 0,
{
    assert(h & ((1u64 << 0) - 1) as u64 == 0) by (bit_vector);
}

/// A prefix fits in its own mask.
pub proof fn lemma_prefix_fits(h: u64, d: u64)
    requires
        d <= 7,
    ensures
        prefix_of(h, d) == prefix_of(h, d) & prefix_mask(d),
{
    assert(prefix_of(h, d) == prefix_of(h, d) & prefix_mask(d)) by (bit_vector);
}

/// Extending a level-`d` prefix with byte `d` yields the level-`d + 1` prefix.
pub proof fn lemma_prefix_extend(h: u64, d: u64)
    requires
        d < 7,
    ensures
        (prefix_of(h, d) | (byte_of(h, d) << ((8 * d) as u64))) == prefix_of(h, (d + 1) as u64),
{
    assert((prefix_of(h, d) | (byte_of(h, d) << ((8 * d) as u64))) == prefix_of(
        h,
        (d + 1) as u64,
    )) by (bit_vector)
        requires
            d < 7,
    ;
}

/// The level-7 prefix together with the top byte recovers the whole key.
pub proof fn lemma_prefix_full(h: u64)
    ensures
        (prefix_of(h, 7) | (byte_of(h, 7) << 56)) == h,
{
    assert((prefix_of(h, 7) | (byte_of(h, 7) << 56)) == h) by (bit_vector);
}

/// An extended prefix determines the prefix and the byte it was built from.
pub proof fn lemma_prefix_split(k: u64, p: u64, i: u64, d: u64)
    requires
        d < 7,
        p == p & prefix_mask(d),
        i < 256,
        prefix_of(k, (d + 1) as u64) == (p | (i << ((8 * d) as u64))),
    ensures
        prefix_of(k, d) == p,
        byte_of(k, d) == i,
{
    assert(prefix_of(k, d) == p && byte_of(k, d) == i) by (bit_vector)
        requires
            d < 7,
            p == p & prefix_mask(d),
            i < 256,
            prefix_of(k, (d + 1) as u64) == (p | (i << ((8 * d) as u64))),
    ;
}

/// A full key built from a level-7 prefix and a top byte determines both.
pub proof fn lemma_full_split(k: u64, p: u64, i: u64)
    requires
        p == p & prefix_mask(7),
        i < 256,
        k == (p | (i << 56)),
    ensures
        prefix_of(k, 7) == p,
        byte_of(k, 7) == i,
{
    assert(prefix_of(k, 7) == p && byte_of(k, 7) == i) by (bit_vector)
        requires
            p == p & prefix_mask(7),
            i < 256,
            k == (p | (i << 56)),
    ;
}

/// The key with its bytes reversed: byte 0 becomes the most significant.
/// The masked walk discovers buckets in ascending order of this value,
/// because it consumes keys least-significant byte first and visits slot
/// indices in ascending order.
pub open spec fn rev_key(k: u64) -> u64 {
    (byte_of(k, 0) << 56) | (byte_of(k, 1) << 48) | (byte_of(k, 2) << 40) | (byte_of(k, 3) << 32)
        | (byte_of(k, 4) << 24) | (byte_of(k, 5) << 16) | (byte_of(k, 6) << 8) | byte_of(k, 7)
}

/// Two keys that agree on their first `d` bytes are ordered, under byte
/// reversal, by their bytes at level `d`.
pub proof fn lemma_rev_order(k1: u64, k2: u64, d: u64)
    requires
        d <= 7,
        prefix_of(k1, d) == prefix_of(k2, d),
        byte_of(k1, d) < byte_of(k2, d),
    ensures
        rev_key(k1) < rev_key(k2),
{
    assert(rev_key(k1) < rev_key(k2)) by (bit_vector)
        requires
            d <= 7,
            prefix_of(k1, d) == prefix_of(k2, d),
            byte_of(k1, d) < byte_of(k2, d),
    ;
}

/// Normalizing a query key is idempotent: clearing the wildcard bits twice
/// changes nothing.
pub proof fn lemma_normalized(h: u64, mask: u64)
    ensures
        (h & !mask) & !mask == h & !mask,
{
    assert((h & !mask) & !mask == h & !mask) by (bit_vector);
}

/// A key that matches a normalized query agrees with it on the significant
/// bits of every prefix.
pub proof fn lemma_match_prefix(k: u64, hq: u64, mask: u64, d: u64)
    requires
        d <= 7,
        k & !mask == hq,
    ensures
        (prefix_of(k, d) & !mask) == (hq & prefix_mask(d)),
{
    assert((prefix_of(k, d) & !mask) == (hq & prefix_mask(d))) by (bit_vector)
        requires
            d <= 7,
            k & !mask == hq,
    ;
}

/// At a level below the last, a slot index extends a matching prefix into a
/// matching longer prefix exactly when the index agrees with the query byte
/// on the significant bits of the mask byte.
pub proof fn lemma_mask_step(hq: u64, mask: u64, p: u64, i: u64, d: u64)
    requires
        d < 7,
        p == p & prefix_mask(d),
        i < 256,
        hq == hq & !mask,
        (p & !mask) == (hq & prefix_mask(d)),
    ensures
        (((p | (i << ((8 * d) as u64))) & !mask) == (hq & prefix_mask((d + 1) as u64))) <==> ((i
            & !byte_of(mask, d)) == byte_of(hq, d)),
{
    assert((((p | (i << ((8 * d) as u64))) & !mask) == (hq & prefix_mask((d + 1) as u64))) <==> ((i
        & !byte_of(mask, d)) == byte_of(hq, d))) by (bit_vector)
        requires
            d < 7,
            p == p & prefix_mask(d),
            i < 256,
            hq == hq & !mask,
            (p & !mask) == (hq & prefix_mask(d)),
    ;
}

/// At the last level, a slot index completes a matching prefix into a full
/// matching key exactly when the index agrees with the query's top byte on
/// the significant bits of the mask's top byte.
pub proof fn lemma_mask_last(hq: u64, mask: u64, p: u64, i: u64)
    requires
        p == p & prefix_mask(7),
        i < 256,
        hq == hq & !mask,
        (p & !mask) == (hq & prefix_mask(7)),
    ensures
        (((p | (i << 56)) & !mask) == hq) <==> ((i & !byte_of(mask, 7)) == byte_of(hq, 7)),
{
    assert((((p | (i << 56)) & !mask) == hq) <==> ((i & !byte_of(mask, 7)) == byte_of(hq, 7)))
        by (bit_vector)
        requires
            p == p & prefix_mask(7),
            i < 256,
            hq == hq & !mask,
            (p & !mask) == (hq & prefix_mask(7)),
    ;
}

} // verus!
