//! A fixed-depth, byte-radix index over 64-bit keys.
//!
//! The index maps each exact 64-bit key to a growable, ordered bucket of
//! elements, and supports a masked query that returns the buckets of every
//! stored key agreeing with a query key on all significant bit positions.

mod bits;
mod laws;
mod tree;

pub use bits::byte_of;
pub use bits::masked_matches;
pub use bits::rev_key;
pub use laws::lemma_insert_accumulates;
pub use laws::lemma_insert_other_absent;
pub use laws::lemma_insert_round_trip;
pub use laws::lemma_masked_exact;
pub use laws::lemma_masked_full_wildcard;
pub use laws::lemma_new_absent;
pub use tree::RadixTree;
