//! The radix tree: a table pool and a bucket pool.
//!
//! Tables are 256-slot nodes held in an append-only pool and addressed by
//! index; slot value 0 is the sentinel for "absent".  At levels 0 to 6 a
//! nonzero slot holds the pool index of a child table; at level 7 it holds a
//! bucket handle encoded as `bucket_index + 1`.  Buckets are the ordered
//! element collections of the distinct keys, in creation order.

use vstd::prelude::*;

use crate::bits::byte_of;
use crate::bits::lemma_full_split;
use crate::bits::lemma_mask_last;
use crate::bits::lemma_prefix_extend;
use crate::bits::lemma_prefix_fits;
use crate::bits::lemma_prefix_full;
use crate::bits::lemma_prefix_split;
use crate::bits::lemma_prefix_zero;
use crate::bits::masked_matches;
use crate::bits::prefix_mask;
use crate::bits::prefix_of;

verus! {

/// Sum of the lengths of a sequence of buckets.
pub open spec fn sum_lens<Element>(bs: Seq<Seq<Element>>) -> nat
    decreases bs.len(),
{
    if bs.len() == 0 {
        0
    } else {
        sum_lens(bs.drop_last()) + bs.last().len()
    }
}

/// One more bucket adds its length to the sum.
proof fn lemma_sum_take_succ<Element>(bs: Seq<Seq<Element>>, i: int)
    requires
        0 <= i < bs.len(),
    ensures
        sum_lens(bs.take(i + 1)) == sum_lens(bs.take(i)) + bs[i].len(),
{
    assert(bs.take(i + 1).drop_last() =~= bs.take(i));
    assert(bs.take(i + 1).last() == bs[i]);
}

/// A partial sum never exceeds the whole sum.
proof fn lemma_sum_take_le<Element>(bs: Seq<Seq<Element>>, i: int)
    requires
        0 <= i <= bs.len(),
    ensures
        sum_lens(bs.take(i)) <= sum_lens(bs),
    decreases bs.len() - i,
{
    if i == bs.len() {
        assert(bs.take(i) =~= bs);
    } else {
        lemma_sum_take_succ(bs, i);
        lemma_sum_take_le(bs, i + 1);
    }
}

/// Appending a fresh value keeps a sequence free of duplicates.
pub(crate) proof fn lemma_push_no_dup<A>(s: Seq<A>, x: A)
    requires
        s.no_duplicates(),
        !s.contains(x),
    ensures
        s.push(x).no_duplicates(),
{
}

/// Filtering keeps a sequence free of duplicates, and adds no values.
pub(crate) proof fn lemma_filter_no_dup<A>(s: Seq<A>, pred: spec_fn(A) -> bool)
    requires
        s.no_duplicates(),
    ensures
        s.filter(pred).no_duplicates(),
        forall|x: A| #[trigger] s.filter(pred).contains(x) ==> s.contains(x),
    decreases s.len(),
{
    reveal(Seq::filter);
    if s.len() == 0 {
    } else {
        let rest = s.drop_last();
        assert(forall|i: int| 0 <= i < rest.len() ==> rest[i] == s[i]);
        lemma_filter_no_dup(rest, pred);
        assert(forall|x: A| rest.contains(x) ==> s.contains(x));
        if pred(s.last()) {
            assert(s.filter(pred) == rest.filter(pred).push(s.last()));
            assert(!rest.contains(s.last()));
            assert(!rest.filter(pred).contains(s.last()));
            assert forall|x: A| #[trigger] s.filter(pred).contains(x) implies s.contains(x) by {
                if x == s.last() {
                    assert(s[s.len() - 1] == x);
                } else {
                    assert(rest.filter(pred).contains(x));
                }
            }
        } else {
            assert(s.filter(pred) == rest.filter(pred));
        }
    }
}

/// Two sequences with the same multiset map to sequences with the same
/// multiset.
proof fn lemma_map_mset<A, B>(s1: Seq<A>, s2: Seq<A>, f: spec_fn(A) -> B)
    requires
        s1.to_multiset() == s2.to_multiset(),
    ensures
        s1.map_values(f).to_multiset() == s2.map_values(f).to_multiset(),
    decreases s1.len(),
{
    broadcast use vstd::seq_lib::group_to_multiset_ensures;

    if s1.len() == 0 {
        assert(s2.to_multiset().len() == 0);
        assert(s2.len() == 0);
        assert(s1.map_values(f) =~= s2.map_values(f));
    } else {
        let x = s1.last();
        let s1r = s1.drop_last();
        assert(s1 =~= s1r.push(x));
        assert(s1.to_multiset() == s1r.to_multiset().insert(x));
        assert(s1.to_multiset().count(x) > 0);
        assert(s2.to_multiset().count(x) > 0);
        assert(s2.contains(x));
        let j = choose|j: int| 0 <= j < s2.len() && s2[j] == x;
        let s2r = s2.remove(j);
        assert(s2r.to_multiset() == s2.to_multiset().remove(x));
        assert(s1r.to_multiset() =~= s2r.to_multiset()) by {
            assert(s1r.to_multiset() == s1.to_multiset().remove(x)) by {
                assert(s1r.push(x).to_multiset() == s1r.to_multiset().insert(x));
            }
        }
        lemma_map_mset(s1r, s2r, f);
        assert(s1.map_values(f) =~= s1r.map_values(f).push(f(x)));
        assert(s1.map_values(f).to_multiset() == s1r.map_values(f).to_multiset().insert(f(x)));
        assert(s2r.map_values(f) =~= s2.map_values(f).remove(j));
        assert(s2.map_values(f).remove(j).to_multiset() == s2.map_values(f).to_multiset().remove(
            s2.map_values(f)[j],
        ));
        assert(s2.map_values(f)[j] == f(x));
        assert(s2.map_values(f).to_multiset().count(f(x)) > 0) by {
            assert(s2.map_values(f).contains(f(x)));
        }
        assert(s1.map_values(f).to_multiset() =~= s2.map_values(f).to_multiset());
    }
}

/// The flattened elements are as many as the bucket lengths sum to.
proof fn lemma_sum_is_flat_len<Element>(bs: Seq<Seq<Element>>)
    ensures
        bs.flatten_alt().len() == sum_lens(bs),
    decreases bs.len(),
{
    if bs.len() > 0 {
        lemma_sum_is_flat_len(bs.drop_last());
    }
}

/// The contents of a sequence of read-only bucket views.
pub open spec fn slice_views<Element>(rs: Seq<&[Element]>) -> Seq<Seq<Element>> {
    rs.map_values(|s: &[Element]| s@)
}

/// A fixed-depth byte-radix index from 64-bit keys to ordered buckets of
/// elements.
#[derive(Clone)]
pub struct RadixTree<Element> {
    /// Table pool: index 0 is the root; every table has exactly 256 slots.
    tables: Vec<Vec<usize>>,
    /// Bucket pool: one bucket per distinct key ever inserted.
    buckets: Vec<Vec<Element>>,
    /// Per table: its level (0 to 7) and the key prefix that routes to it.
    info: Ghost<Seq<(nat, u64)>>,
    /// Per bucket: the key all its elements were inserted under.
    keys: Ghost<Seq<u64>>,
}

impl<Element> RadixTree<Element> {
    /// The keys ever inserted, one per bucket, in bucket-creation order.
    pub closed spec fn key_seq(self) -> Seq<u64> {
        self.keys@
    }

    /// The bucket contents, in bucket-creation order.
    pub closed spec fn bucket_seq(self) -> Seq<Seq<Element>> {
        Seq::new(self.buckets@.len() as nat, |b: int| self.buckets@[b]@)
    }

    /// Whether some element was ever inserted under key `h`.
    pub open spec fn contains_key(self, h: u64) -> bool {
        self.key_seq().contains(h)
    }

    /// The position of key `h`'s bucket in the pools.
    pub open spec fn key_index(self, h: u64) -> int {
        self.key_seq().index_of(h)
    }

    /// The bucket of key `h`, in insertion order.
    pub open spec fn bucket_of(self, h: u64) -> Seq<Element> {
        self.bucket_seq()[self.key_index(h)]
    }

    /// The number of elements stored, over all buckets.
    pub open spec fn total_len(self) -> nat {
        sum_lens(self.bucket_seq())
    }

    /// Every element stored, in bucket-creation order and, within a bucket,
    /// in insertion order.
    pub open spec fn elements(self) -> Seq<Element> {
        self.bucket_seq().flatten()
    }

    /// The bucket positions whose keys answer the masked query `(h, mask)`,
    /// in bucket-creation order.
    pub open spec fn matched_key_indices(self, h: u64, mask: u64) -> Seq<int> {
        Seq::new(self.key_seq().len(), |b: int| b).filter(
            |b: int| masked_matches(self.key_seq()[b], h, mask),
        )
    }

    /// The buckets whose keys answer the masked query `(h, mask)`, in
    /// bucket-creation order.
    pub open spec fn matched_buckets(self, h: u64, mask: u64) -> Seq<Seq<Element>> {
        self.matched_key_indices(h, mask).map_values(|b: int| self.bucket_seq()[b])
    }

    /// The bucket positions `s` name keys in strictly ascending
    /// byte-reversed order: the discovery order of the masked walk.
    pub open spec fn visit_ordered(self, s: Seq<int>) -> bool {
        forall|x: int, y: int|
            0 <= x < y < s.len() ==> crate::bits::rev_key(self.key_seq()[#[trigger] s[x]])
                < crate::bits::rev_key(self.key_seq()[#[trigger] s[y]])
    }

    /// A result of the masked query `(h, mask)`, described exactly: `ord`
    /// names the bucket of each returned view, the named keys are exactly
    /// the matching ones, and they come in discovery order.
    pub open spec fn masked_result_ordered(
        self,
        h: u64,
        mask: u64,
        r: Seq<Seq<Element>>,
        ord: Seq<int>,
    ) -> bool {
        &&& ord.len() == r.len()
        &&& forall|j: int| 0 <= j < ord.len() ==> 0 <= #[trigger] ord[j] < self.key_seq().len()
        &&& forall|j: int| 0 <= j < ord.len() ==> r[j] == self.bucket_seq()[#[trigger] ord[j]]
        &&& forall|j: int|
            0 <= j < ord.len() ==> masked_matches(self.key_seq()[#[trigger] ord[j]], h, mask)
        &&& forall|b: int|
            0 <= b < self.key_seq().len() && masked_matches(self.key_seq()[b], h, mask)
                ==> ord.contains(b)
        &&& self.visit_ordered(ord)
    }

    /// Concatenating ordered runs whose keys are level-`d` siblings in
    /// ascending byte order yields an ordered run.
    proof fn lemma_ordered_concat(self, a: Seq<int>, b: Seq<int>)
        requires
            self.visit_ordered(a),
            self.visit_ordered(b),
            forall|x: int, y: int|
                0 <= x < a.len() && 0 <= y < b.len() ==> crate::bits::rev_key(
                    self.key_seq()[#[trigger] a[x]],
                ) < crate::bits::rev_key(self.key_seq()[#[trigger] b[y]]),
        ensures
            self.visit_ordered(a + b),
    {
        let c = a + b;
        assert forall|x: int, y: int|
            0 <= x < y < c.len() implies crate::bits::rev_key(self.key_seq()[#[trigger] c[x]])
            < crate::bits::rev_key(self.key_seq()[#[trigger] c[y]]) by {
            if x < a.len() {
                assert(c[x] == a[x]);
            } else {
                assert(c[x] == b[x - a.len()]);
            }
            if y < a.len() {
                assert(c[y] == a[y]);
            } else {
                assert(c[y] == b[y - a.len()]);
            }
        }
    }

    /// The bucket positions in the subtree of prefix `p` at level `d` whose
    /// keys match the normalized query `hq` under `mask`.
    spec fn matched_set(self, hq: u64, mask: u64, d: u64, p: u64) -> Set<int> {
        Set::new(
            |b: int|
                0 <= b < self.keys@.len() && prefix_of(self.keys@[b], d) == p && (self.keys@[b]
                    & !mask) == hq,
        )
    }

    /// The part of `matched_set` already swept by a slot scan: only byte `d`
    /// values below `bound`.
    spec fn matched_below(self, hq: u64, mask: u64, d: u64, p: u64, bound: int) -> Set<int> {
        Set::new(
            |b: int|
                0 <= b < self.keys@.len() && prefix_of(self.keys@[b], d) == p && (self.keys@[b]
                    & !mask) == hq && byte_of(self.keys@[b], d) < bound,
        )
    }

    spec fn depth_of(self, t: int) -> nat {
        self.info@[t].0
    }

    spec fn prefix_at(self, t: int) -> u64 {
        self.info@[t].1
    }

    spec fn slot(self, t: int, i: int) -> usize {
        self.tables@[t]@[i]
    }

    /// Shape of the table pool: the root exists, every table has 256 slots,
    /// and every table sits at a level with a prefix that fits that level.
    spec fn tables_wf(self) -> bool {
        &&& 1 <= self.tables@.len()
        &&& self.info@.len() == self.tables@.len()
        &&& forall|t: int|
            0 <= t < self.tables@.len() ==> (#[trigger] self.tables@[t])@.len() == 256
        &&& self.info@[0] == (0nat, 0u64)
        &&& forall|t: int| 0 <= t < self.tables@.len() ==> #[trigger] self.depth_of(t) <= 7
        &&& forall|t: int|
            0 <= t < self.tables@.len() ==> #[trigger] self.prefix_at(t) == (self.prefix_at(t)
                & prefix_mask(self.depth_of(t) as u64))
    }

    /// Every nonzero slot of a table at levels 0 to 6 links to a table one
    /// level down whose prefix extends this table's prefix by the slot index.
    spec fn links_wf(self) -> bool {
        forall|t: int, i: int|
            0 <= t < self.tables@.len() && 0 <= i < 256 && self.depth_of(t) < 7 && (
            #[trigger] self.slot(t, i)) != 0 ==> {
                &&& self.slot(t, i) < self.tables@.len()
                &&& self.depth_of(self.slot(t, i) as int) == self.depth_of(t) + 1
                &&& self.prefix_at(self.slot(t, i) as int) == (self.prefix_at(t) | ((i as u64) << ((
                8 * self.depth_of(t)) as u64)))
            }
    }

    /// Every nonzero slot of a level-7 table holds a bucket handle
    /// `bucket_index + 1`, and that bucket's key is the table's prefix
    /// extended by the slot index as the top byte.
    spec fn terminals_wf(self) -> bool {
        forall|t: int, i: int|
            0 <= t < self.tables@.len() && 0 <= i < 256 && self.depth_of(t) == 7 && (
            #[trigger] self.slot(t, i)) != 0 ==> {
                &&& 1 <= self.slot(t, i) <= self.buckets@.len()
                &&& self.keys@[self.slot(t, i) - 1] == (self.prefix_at(t) | ((i as u64) << 56))
            }
    }

    /// The table reached after consuming the low `d` bytes of `h`, starting
    /// from the root, or -1 where the path is not materialized.
    pub closed spec fn table_for(self, h: u64, d: u64) -> int
        decreases d,
    {
        if d == 0 {
            0
        } else {
            let t = self.table_for(h, (d - 1) as u64);
            if t < 0 || t >= self.tables@.len() {
                -1
            } else {
                let s = self.tables@[t]@[byte_of(h, (d - 1) as u64) as int];
                if s == 0 {
                    -1
                } else {
                    s as int
                }
            }
        }
    }

    /// The terminal slot value for key `h`: a bucket handle, or 0 where the
    /// key was never inserted.
    pub closed spec fn terminal_slot(self, h: u64) -> int {
        let t = self.table_for(h, 7);
        if t < 0 || t >= self.tables@.len() {
            0
        } else {
            self.tables@[t]@[byte_of(h, 7) as int] as int
        }
    }

    /// Every bucket is reachable under its own key, and no bucket is empty.
    spec fn buckets_wf(self) -> bool {
        &&& self.keys@.len() == self.buckets@.len()
        &&& forall|b: int|
            0 <= b < self.buckets@.len() ==> self.terminal_slot(#[trigger] self.keys@[b]) == b + 1
        &&& forall|b: int| 0 <= b < self.buckets@.len() ==> (#[trigger] self.buckets@[b])@.len() >= 1
    }

    /// Well-formedness of the whole structure; established by `new` and
    /// preserved by `insert`.
    pub closed spec fn wf(self) -> bool {
        &&& self.tables_wf()
        &&& self.links_wf()
        &&& self.terminals_wf()
        &&& self.buckets_wf()
    }

    /// The key sequence after inserting under key `h`: unchanged where `h`
    /// already has a bucket, extended by `h` where it does not.
    pub open spec fn keys_after_insert(self, h: u64) -> Seq<u64> {
        if self.contains_key(h) {
            self.key_seq()
        } else {
            self.key_seq().push(h)
        }
    }

    /// The bucket contents after inserting `e` under key `h`: `e` is appended
    /// to `h`'s bucket, which is created when absent.
    pub open spec fn buckets_after_insert(self, e: Element, h: u64) -> Seq<Seq<Element>> {
        if self.contains_key(h) {
            self.bucket_seq().update(self.key_index(h), self.bucket_of(h).push(e))
        } else {
            self.bucket_seq().push(seq![e])
        }
    }

    /// A materialized walk ends at a table whose level and prefix are those
    /// of the key walked with.
    proof fn lemma_walk_info(self, h: u64, d: u64)
        requires
            self.wf(),
            d <= 7,
            self.table_for(h, d) != -1,
        ensures
            0 <= self.table_for(h, d) < self.tables@.len(),
            self.depth_of(self.table_for(h, d)) == d,
            self.prefix_at(self.table_for(h, d)) == prefix_of(h, d),
        decreases d,
    {
        if d == 0 {
            lemma_prefix_zero(h);
        } else {
            let dp = (d - 1) as u64;
            let prev = self.table_for(h, dp);
            assert(prev != -1);
            self.lemma_walk_info(h, dp);
            let i = byte_of(h, dp);
            crate::bits::lemma_byte_bound(h, dp);
            assert(self.slot(prev, i as int) != 0);
            lemma_prefix_extend(h, dp);
        }
    }

    /// Once a walk falls off the materialized tree it stays off.
    proof fn lemma_walk_none(self, h: u64, d: u64, d2: u64)
        requires
            d <= d2 <= 7,
            self.table_for(h, d) == -1,
        ensures
            self.table_for(h, d2) == -1,
        decreases d2 - d,
    {
        if d2 > d {
            self.lemma_walk_none(h, d, (d2 - 1) as u64);
        }
    }

    /// The terminal slot of a key is nonzero exactly when the key was ever
    /// inserted, and then it is the handle of that key's bucket.
    proof fn lemma_terminal_key(self, h: u64)
        requires
            self.wf(),
        ensures
            (self.terminal_slot(h) != 0) <==> self.contains_key(h),
            self.terminal_slot(h) != 0 ==> {
                &&& 1 <= self.terminal_slot(h) <= self.buckets@.len()
                &&& self.key_seq()[self.terminal_slot(h) - 1] == h
                &&& self.key_index(h) == self.terminal_slot(h) - 1
                &&& self.bucket_of(h) == self.buckets@[self.terminal_slot(h) - 1]@
            },
    {
        let ts = self.terminal_slot(h);
        if ts != 0 {
            let t = self.table_for(h, 7);
            self.lemma_walk_info(h, 7);
            let i = byte_of(h, 7);
            crate::bits::lemma_byte_bound(h, 7);
            assert(self.slot(t, i as int) == ts);
            lemma_prefix_full(h);
            assert(self.key_seq()[ts - 1] == h);
            assert(self.contains_key(h));
            let ki = self.key_index(h);
            assert(0 <= ki < self.keys@.len() && self.key_seq()[ki] == h);
            assert(self.terminal_slot(self.keys@[ki]) == ki + 1);
        }
        if self.contains_key(h) {
            let b = choose|b: int| 0 <= b < self.keys@.len() && self.keys@[b] == h;
            assert(self.terminal_slot(self.keys@[b]) == b + 1);
        }
    }

    /// `len` and `iter` agree: the sum of the bucket lengths counts exactly
    /// the elements that iteration yields.
    pub proof fn lemma_elements_count(self)
        ensures
            self.elements().len() == self.total_len(),
    {
        lemma_sum_is_flat_len(self.bucket_seq());
        self.bucket_seq().lemma_flatten_and_flatten_alt_are_equivalent();
    }

    /// No key ever has two buckets: each key's bucket is the one its
    /// terminal slot points to.
    pub proof fn lemma_keys_distinct(self)
        requires
            self.wf(),
        ensures
            self.key_seq().no_duplicates(),
            self.key_seq().len() == self.bucket_seq().len(),
    {
        assert forall|b1: int, b2: int|
            0 <= b1 < self.keys@.len() && 0 <= b2 < self.keys@.len() && b1 != b2 implies self.keys@[b1]
            != self.keys@[b2] by {
            assert(self.terminal_slot(self.keys@[b1]) == b1 + 1);
            assert(self.terminal_slot(self.keys@[b2]) == b2 + 1);
        }
    }

    /// All slots of the tables of `pre` hold the same values in `post`,
    /// except the one at `(ct, ci)`; `post` may hold more tables.
    spec fn framed_except(pre: Self, post: Self, ct: int, ci: int) -> bool {
        &&& post.tables@.len() >= pre.tables@.len()
        &&& forall|t2: int, i2: int|
            0 <= t2 < pre.tables@.len() && 0 <= i2 < 256 && !(t2 == ct && i2 == ci)
                ==> post.slot(t2, i2) == pre.slot(t2, i2)
    }

    /// A walk that was materialized never reads an empty slot, so writing to
    /// an empty slot (or appending tables) leaves it unchanged.
    proof fn lemma_walk_frame(pre: Self, post: Self, k: u64, d: u64, ct: int, ci: int)
        requires
            d <= 7,
            pre.table_for(k, d) != -1,
            pre.slot(ct, ci) == 0,
            Self::framed_except(pre, post, ct, ci),
        ensures
            post.table_for(k, d) == pre.table_for(k, d),
        decreases d,
    {
        if d > 0 {
            let dp = (d - 1) as u64;
            assert(pre.table_for(k, dp) != -1);
            Self::lemma_walk_frame(pre, post, k, dp, ct, ci);
            let tp = pre.table_for(k, dp);
            let i = byte_of(k, dp);
            crate::bits::lemma_byte_bound(k, dp);
            assert(pre.slot(tp, i as int) != 0);
            assert(post.slot(tp, i as int) == pre.slot(tp, i as int));
        }
    }

    /// A nonzero terminal slot is likewise untouched by writing to an empty
    /// slot or appending tables.
    proof fn lemma_terminal_frame(pre: Self, post: Self, k: u64, ct: int, ci: int)
        requires
            pre.terminal_slot(k) != 0,
            pre.slot(ct, ci) == 0,
            Self::framed_except(pre, post, ct, ci),
        ensures
            post.terminal_slot(k) == pre.terminal_slot(k),
    {
        let t7 = pre.table_for(k, 7);
        assert(t7 != -1);
        Self::lemma_walk_frame(pre, post, k, 7, ct, ci);
        let i = byte_of(k, 7);
        crate::bits::lemma_byte_bound(k, 7);
        assert(pre.slot(t7, i as int) != 0);
        assert(post.slot(t7, i as int) == pre.slot(t7, i as int));
    }

    /// Walks read only the table pool: states with equal pools walk alike.
    proof fn lemma_walk_same_tables(a: Self, b: Self, k: u64, d: u64)
        requires
            a.tables@ == b.tables@,
            d <= 7,
        ensures
            a.table_for(k, d) == b.table_for(k, d),
        decreases d,
    {
        if d > 0 {
            Self::lemma_walk_same_tables(a, b, k, (d - 1) as u64);
        }
    }

    /// Bucket views depend only on the bucket pool.
    proof fn lemma_same_buckets(a: Self, b: Self)
        requires
            a.buckets@ == b.buckets@,
        ensures
            a.bucket_seq() == b.bucket_seq(),
    {
        assert(a.bucket_seq() =~= b.bucket_seq());
    }

    /// Writing a fresh table's index into the empty slot its prefix routes
    /// to, and appending that all-zero table, keeps the structure well
    /// formed and materializes the next level of the key's path.
    proof fn lemma_grow_table(pre: Self, post: Self, h: u64, d: u64, t: int)
        requires
            pre.wf(),
            d < 7,
            0 <= t,
            pre.tables@.len() <= usize::MAX,
            pre.table_for(h, d) == t,
            pre.slot(t, byte_of(h, d) as int) == 0,
            post.buckets@ == pre.buckets@,
            post.keys@ == pre.keys@,
            post.info@ == pre.info@.push(((d + 1) as nat, prefix_of(h, (d + 1) as u64))),
            post.tables@.len() == pre.tables@.len() + 1,
            post.tables@[t]@ == pre.tables@[t]@.update(
                byte_of(h, d) as int,
                pre.tables@.len() as usize,
            ),
            forall|t2: int|
                0 <= t2 < pre.tables@.len() && t2 != t ==> post.tables@[t2]@
                    == pre.tables@[t2]@,
            post.tables@[pre.tables@.len() as int]@.len() == 256,
            forall|i: int|
                0 <= i < 256 ==> post.tables@[pre.tables@.len() as int]@[i] == 0,
        ensures
            post.wf(),
            post.table_for(h, (d + 1) as u64) == pre.tables@.len() as int,
    {
        let gl = pre.tables@.len() as int;
        let ci = byte_of(h, d) as int;
        pre.lemma_walk_info(h, d);
        crate::bits::lemma_byte_bound(h, d);
        let p = pre.prefix_at(t);
        lemma_prefix_extend(h, d);
        lemma_prefix_fits(h, (d + 1) as u64);
        assert(pre.tables@[t]@.len() == 256);
        assert(post.info@[gl] == ((d + 1) as nat, prefix_of(h, (d + 1) as u64)));
        assert(post.depth_of(gl) == d + 1 && post.prefix_at(gl) == prefix_of(h, (d + 1) as u64));
        assert(forall|t2: int| 0 <= t2 < gl ==> post.info@[t2] == pre.info@[t2]);
        assert(post.tables@[t]@[ci] == pre.tables@.len() as usize);
        assert(Self::framed_except(pre, post, t, ci)) by {
            assert forall|t2: int, i2: int|
                0 <= t2 < pre.tables@.len() && 0 <= i2 < 256 && !(t2 == t && i2
                    == ci) implies post.slot(t2, i2) == pre.slot(t2, i2) by {
                if t2 == t {
                    assert(post.tables@[t2]@[i2] == pre.tables@[t2]@[i2]);
                }
            }
        }
        assert(post.info@.len() == post.tables@.len());
        assert(post.info@[0] == (0nat, 0u64));
        assert forall|t2: int| 0 <= t2 < post.tables@.len() implies (
        #[trigger] post.tables@[t2])@.len() == 256 by {
            if t2 < gl {
                assert(pre.tables@[t2]@.len() == 256);
            }
        }
        assert forall|t2: int| 0 <= t2 < post.tables@.len() implies #[trigger] post.depth_of(t2)
            <= 7 by {
            if t2 < gl {
                assert(pre.depth_of(t2) <= 7);
            }
        }
        assert forall|t2: int| 0 <= t2 < post.tables@.len() implies #[trigger] post.prefix_at(t2)
            == (post.prefix_at(t2) & prefix_mask(post.depth_of(t2) as u64)) by {
            if t2 < gl {
                assert(pre.prefix_at(t2) == (pre.prefix_at(t2) & prefix_mask(
                    pre.depth_of(t2) as u64,
                )));
            }
        }
        assert(post.tables_wf());
        assert(post.links_wf()) by {
            assert forall|t2: int, i2: int|
                0 <= t2 < post.tables@.len() && 0 <= i2 < 256 && post.depth_of(t2) < 7 && (
                #[trigger] post.slot(t2, i2)) != 0 implies {
                &&& post.slot(t2, i2) < post.tables@.len()
                &&& post.depth_of(post.slot(t2, i2) as int) == post.depth_of(t2) + 1
                &&& post.prefix_at(post.slot(t2, i2) as int) == (post.prefix_at(t2) | ((
                i2 as u64) << ((8 * post.depth_of(t2)) as u64)))
            } by {
                if t2 == gl {
                    assert(post.slot(t2, i2) == 0);
                } else if t2 == t && i2 == ci {
                    assert(post.slot(t2, i2) == gl);
                    assert(post.depth_of(gl) == d + 1);
                    assert(post.prefix_at(gl) == prefix_of(h, (d + 1) as u64));
                    assert(post.prefix_at(t2) == p && post.depth_of(t2) == d);
                } else {
                    assert(post.slot(t2, i2) == pre.slot(t2, i2));
                    assert(pre.slot(t2, i2) != 0);
                }
            }
        }
        assert(post.terminals_wf()) by {
            assert forall|t2: int, i2: int|
                0 <= t2 < post.tables@.len() && 0 <= i2 < 256 && post.depth_of(t2) == 7 && (
                #[trigger] post.slot(t2, i2)) != 0 implies {
                &&& 1 <= post.slot(t2, i2) <= post.buckets@.len()
                &&& post.keys@[post.slot(t2, i2) - 1] == (post.prefix_at(t2) | ((i2 as u64)
                    << 56))
            } by {
                if t2 == gl {
                    assert(post.slot(t2, i2) == 0);
                } else {
                    assert(pre.depth_of(t2) == 7);
                    assert(!(t2 == t && i2 == ci));
                    assert(post.slot(t2, i2) == pre.slot(t2, i2));
                    assert(pre.slot(t2, i2) != 0);
                }
            }
        }
        assert(post.buckets_wf()) by {
            assert forall|b: int| 0 <= b < post.buckets@.len() implies post.terminal_slot(
                #[trigger] post.keys@[b],
            ) == b + 1 by {
                assert(pre.terminal_slot(pre.keys@[b]) == b + 1);
                Self::lemma_terminal_frame(pre, post, pre.keys@[b], t, ci);
            }
        }
        Self::lemma_walk_frame(pre, post, h, d, t, ci);
        assert(post.slot(t, ci) == gl);
        assert(post.table_for(h, (d + 1) as u64) == gl);
    }

    /// Table-pool shape is kept by any change that leaves the levels, the
    /// prefixes and the row lengths alone.
    proof fn lemma_tables_wf_carry(pre: Self, post: Self)
        requires
            pre.tables_wf(),
            post.info@ == pre.info@,
            post.tables@.len() == pre.tables@.len(),
            forall|t2: int|
                0 <= t2 < post.tables@.len() ==> (#[trigger] post.tables@[t2])@.len() == 256,
        ensures
            post.tables_wf(),
    {
        assert forall|t2: int| 0 <= t2 < post.tables@.len() implies #[trigger] post.depth_of(t2)
            <= 7 by {
            assert(pre.depth_of(t2) <= 7);
        }
        assert forall|t2: int|
            0 <= t2 < post.tables@.len() implies #[trigger] post.prefix_at(t2) == (
        post.prefix_at(t2) & prefix_mask(post.depth_of(t2) as u64)) by {
            assert(pre.prefix_at(t2) == (pre.prefix_at(t2) & prefix_mask(
                pre.depth_of(t2) as u64,
            )));
        }
    }

    /// Writing a fresh bucket's handle into the empty terminal slot its key
    /// routes to, and appending that bucket with its key, keeps the
    /// structure well formed and makes the key present.
    proof fn lemma_new_bucket(pre: Self, post: Self, h: u64, t: int)
        requires
            pre.wf(),
            0 <= t,
            pre.buckets@.len() + 1 <= usize::MAX,
            pre.table_for(h, 7) == t,
            pre.slot(t, byte_of(h, 7) as int) == 0,
            post.info@ == pre.info@,
            post.keys@ == pre.keys@.push(h),
            post.buckets@.len() == pre.buckets@.len() + 1,
            forall|b: int| 0 <= b < pre.buckets@.len() ==> post.buckets@[b] == pre.buckets@[b],
            post.buckets@[pre.buckets@.len() as int]@.len() >= 1,
            post.tables@.len() == pre.tables@.len(),
            post.tables@[t]@ == pre.tables@[t]@.update(
                byte_of(h, 7) as int,
                (pre.buckets@.len() + 1) as usize,
            ),
            forall|t2: int|
                0 <= t2 < pre.tables@.len() && t2 != t ==> post.tables@[t2]@
                    == pre.tables@[t2]@,
        ensures
            post.wf(),
            !pre.contains_key(h),
            post.terminal_slot(h) == pre.buckets@.len() + 1,
    {
        let gb = pre.buckets@.len() as int;
        let ci = byte_of(h, 7) as int;
        pre.lemma_walk_info(h, 7);
        crate::bits::lemma_byte_bound(h, 7);
        lemma_prefix_full(h);
        pre.lemma_terminal_key(h);
        assert(pre.tables@[t]@.len() == 256);
        assert(post.tables@[t]@[ci] == (gb + 1) as usize);
        assert(Self::framed_except(pre, post, t, ci)) by {
            assert forall|t2: int, i2: int|
                0 <= t2 < pre.tables@.len() && 0 <= i2 < 256 && !(t2 == t && i2
                    == ci) implies post.slot(t2, i2) == pre.slot(t2, i2) by {
                if t2 == t {
                    assert(post.tables@[t2]@[i2] == pre.tables@[t2]@[i2]);
                }
            }
        }
        assert forall|t2: int| 0 <= t2 < post.tables@.len() implies (
        #[trigger] post.tables@[t2])@.len() == 256 by {
            assert(pre.tables@[t2]@.len() == 256);
        }
        Self::lemma_tables_wf_carry(pre, post);
        assert(post.links_wf()) by {
            assert forall|t2: int, i2: int|
                0 <= t2 < post.tables@.len() && 0 <= i2 < 256 && post.depth_of(t2) < 7 && (
                #[trigger] post.slot(t2, i2)) != 0 implies {
                &&& post.slot(t2, i2) < post.tables@.len()
                &&& post.depth_of(post.slot(t2, i2) as int) == post.depth_of(t2) + 1
                &&& post.prefix_at(post.slot(t2, i2) as int) == (post.prefix_at(t2) | ((
                i2 as u64) << ((8 * post.depth_of(t2)) as u64)))
            } by {
                assert(!(t2 == t && i2 == ci));
                assert(post.slot(t2, i2) == pre.slot(t2, i2));
                assert(pre.slot(t2, i2) != 0);
            }
        }
        assert(post.terminals_wf()) by {
            assert forall|t2: int, i2: int|
                0 <= t2 < post.tables@.len() && 0 <= i2 < 256 && post.depth_of(t2) == 7 && (
                #[trigger] post.slot(t2, i2)) != 0 implies {
                &&& 1 <= post.slot(t2, i2) <= post.buckets@.len()
                &&& post.keys@[post.slot(t2, i2) - 1] == (post.prefix_at(t2) | ((i2 as u64)
                    << 56))
            } by {
                if t2 == t && i2 == ci {
                    assert(post.slot(t2, i2) == gb + 1);
                    assert(post.keys@[gb] == h);
                } else {
                    assert(post.slot(t2, i2) == pre.slot(t2, i2));
                    assert(pre.slot(t2, i2) != 0);
                }
            }
        }
        Self::lemma_walk_frame(pre, post, h, 7, t, ci);
        assert(post.terminal_slot(h) == gb + 1);
        assert(post.buckets_wf()) by {
            assert forall|b: int| 0 <= b < post.buckets@.len() implies post.terminal_slot(
                #[trigger] post.keys@[b],
            ) == b + 1 by {
                if b < gb {
                    assert(pre.terminal_slot(pre.keys@[b]) == b + 1);
                    Self::lemma_terminal_frame(pre, post, pre.keys@[b], t, ci);
                } else {
                    assert(post.keys@[b] == h);
                }
            }
        }
    }

    /// Appending an element to an existing bucket leaves the tables, the
    /// keys and every other bucket alone, so the structure stays well
    /// formed.
    proof fn lemma_append_bucket(pre: Self, post: Self, h: u64, s: int)
        requires
            pre.wf(),
            s != 0,
            pre.terminal_slot(h) == s,
            post.tables@ == pre.tables@,
            post.info@ == pre.info@,
            post.keys@ == pre.keys@,
            post.buckets@.len() == pre.buckets@.len(),
            forall|b: int|
                0 <= b < pre.buckets@.len() && b != s - 1 ==> post.buckets@[b]
                    == pre.buckets@[b],
            post.buckets@[s - 1]@.len() >= 1,
        ensures
            post.wf(),
    {
        pre.lemma_terminal_key(h);
        assert forall|t2: int| 0 <= t2 < post.tables@.len() implies (
        #[trigger] post.tables@[t2])@.len() == 256 by {
            assert(pre.tables@[t2]@.len() == 256);
        }
        Self::lemma_tables_wf_carry(pre, post);
        assert(post.links_wf()) by {
            assert forall|t2: int, i2: int|
                0 <= t2 < post.tables@.len() && 0 <= i2 < 256 && post.depth_of(t2) < 7 && (
                #[trigger] post.slot(t2, i2)) != 0 implies {
                &&& post.slot(t2, i2) < post.tables@.len()
                &&& post.depth_of(post.slot(t2, i2) as int) == post.depth_of(t2) + 1
                &&& post.prefix_at(post.slot(t2, i2) as int) == (post.prefix_at(t2) | ((
                i2 as u64) << ((8 * post.depth_of(t2)) as u64)))
            } by {
                assert(pre.slot(t2, i2) == post.slot(t2, i2));
                assert(pre.slot(t2, i2) != 0);
            }
        }
        assert(post.terminals_wf()) by {
            assert forall|t2: int, i2: int|
                0 <= t2 < post.tables@.len() && 0 <= i2 < 256 && post.depth_of(t2) == 7 && (
                #[trigger] post.slot(t2, i2)) != 0 implies {
                &&& 1 <= post.slot(t2, i2) <= post.buckets@.len()
                &&& post.keys@[post.slot(t2, i2) - 1] == (post.prefix_at(t2) | ((i2 as u64)
                    << 56))
            } by {
                assert(pre.slot(t2, i2) == post.slot(t2, i2));
                assert(pre.slot(t2, i2) != 0);
            }
        }
        assert(post.buckets_wf()) by {
            assert forall|b: int| 0 <= b < post.buckets@.len() implies post.terminal_slot(
                #[trigger] post.keys@[b],
            ) == b + 1 by {
                assert(pre.terminal_slot(pre.keys@[b]) == b + 1);
                Self::lemma_walk_same_tables(pre, post, pre.keys@[b], 7);
            }
            assert forall|b: int| 0 <= b < post.buckets@.len() implies (
            #[trigger] post.buckets@[b])@.len() >= 1 by {
                if b != s - 1 {
                    assert(pre.buckets@[b]@.len() >= 1);
                }
            }
        }
    }

    /// Returns the bucket of key `hash` as a read-only view, in insertion
    /// order, or `None` where no element was ever inserted under `hash`.
    pub fn get(&self, hash: u64) -> (r: Option<&[Element]>)
        requires
            self.wf(),
        ensures
            match r {
                Some(bucket) => self.contains_key(hash) && bucket@ == self.bucket_of(hash),
                None => !self.contains_key(hash),
            },
    {
        let mut t: usize = 0;
        let mut level: u64 = 0;
        while level < 7
            invariant
                self.wf(),
                level <= 7,
                self.table_for(hash, level) == t as int,
                t < self.tables@.len(),
            decreases 7 - level,
        {
            proof {
                self.lemma_walk_info(hash, level);
                crate::bits::lemma_byte_bound(hash, level);
            }
            let b = ((hash >> (8 * level)) & 0xff) as usize;
            let s = self.tables[t][b];
            if s == 0 {
                proof {
                    assert(self.table_for(hash, (level + 1) as u64) == -1);
                    self.lemma_walk_none(hash, (level + 1) as u64, 7);
                    assert(self.terminal_slot(hash) == 0);
                    self.lemma_terminal_key(hash);
                }
                return None;
            }
            proof {
                assert(self.table_for(hash, (level + 1) as u64) == s as int);
                assert(self.slot(t as int, byte_of(hash, level) as int) == s);
            }
            t = s;
            level = level + 1;
        }
        proof {
            self.lemma_walk_info(hash, 7);
            crate::bits::lemma_byte_bound(hash, 7);
        }
        let b = ((hash >> 56) & 0xff) as usize;
        let s = self.tables[t][b];
        proof {
            assert(b as u64 == byte_of(hash, 7)) by (bit_vector)
                requires
                    b == ((hash >> 56) & 0xff) as usize,
            ;
            assert(self.terminal_slot(hash) == s as int);
            self.lemma_terminal_key(hash);
        }
        if s == 0 {
            None
        } else {
            Some(self.buckets[s - 1].as_slice())
        }
    }

    /// Returns the number of elements in the tree: the sum of all bucket
    /// lengths.  The bound asks only what the return type forces: the sum
    /// must fit in `usize`.
    pub fn len(&self) -> (r: usize)
        requires
            self.total_len() <= usize::MAX,
        ensures
            r == self.total_len(),
    {
        let mut total: usize = 0;
        let mut i: usize = 0;
        while i < self.buckets.len()
            invariant
                i <= self.buckets@.len(),
                total == sum_lens(self.bucket_seq().take(i as int)),
                self.total_len() <= usize::MAX,
            decreases self.buckets@.len() - i,
        {
            proof {
                lemma_sum_take_succ(self.bucket_seq(), i as int);
                lemma_sum_take_le(self.bucket_seq(), i as int + 1);
            }
            total = total + self.buckets[i].len();
            i = i + 1;
        }
        proof {
            assert(self.bucket_seq().take(self.buckets@.len() as int) =~= self.bucket_seq());
        }
        total
    }

    /// Returns whether the tree is currently empty: whether it holds no
    /// elements, equivalently whether no key was ever inserted.
    pub fn is_empty(&self) -> (r: bool)
        requires
            self.wf(),
        ensures
            r == (self.total_len() == 0),
            r == (self.key_seq().len() == 0),
    {
        let r = self.buckets.len() == 0;
        proof {
            if self.buckets@.len() > 0 {
                assert(self.buckets@[self.buckets@.len() - 1]@.len() >= 1);
                assert(self.bucket_seq().last().len() >= 1);
            } else {
                assert(self.bucket_seq() =~= Seq::<Seq<Element>>::empty());
            }
        }
        r
    }

    /// Returns every element in the tree, traversing buckets in creation
    /// order and each bucket in insertion order.
    pub fn iter(&self) -> (r: Vec<&Element>)
        ensures
            r@.map_values(|e: &Element| *e) == self.elements(),
    {
        let mut out: Vec<&Element> = Vec::new();
        let mut i: usize = 0;
        while i < self.buckets.len()
            invariant
                i <= self.buckets@.len(),
                out@.map_values(|e: &Element| *e) == self.bucket_seq().take(
                    i as int,
                ).flatten_alt(),
            decreases self.buckets@.len() - i,
        {
            let ghost outer_done = self.bucket_seq().take(i as int).flatten_alt();
            let mut j: usize = 0;
            while j < self.buckets[i].len()
                invariant
                    i < self.buckets@.len(),
                    j <= self.buckets@[i as int]@.len(),
                    out@.map_values(|e: &Element| *e) == outer_done
                        + self.bucket_seq()[i as int].take(j as int),
                decreases self.buckets@[i as int]@.len() - j,
            {
                let ghost prev = out@;
                out.push(&self.buckets[i][j]);
                proof {
                    assert(out@.map_values(|e: &Element| *e) =~= prev.map_values(
                        |e: &Element| *e,
                    ).push(self.buckets@[i as int]@[j as int]));
                    assert(outer_done + self.bucket_seq()[i as int].take(j as int + 1)
                        =~= (outer_done + self.bucket_seq()[i as int].take(j as int)).push(
                        self.buckets@[i as int]@[j as int],
                    ));
                }
                j = j + 1;
            }
            proof {
                let bs = self.bucket_seq();
                assert(bs[i as int].take(bs[i as int].len() as int) =~= bs[i as int]);
                assert(bs.take(i as int + 1).drop_last() =~= bs.take(i as int));
                assert(bs.take(i as int + 1).flatten_alt() == outer_done + bs[i as int]);
            }
            i = i + 1;
        }
        proof {
            let bs = self.bucket_seq();
            assert(bs.take(self.buckets@.len() as int) =~= bs);
            bs.lemma_flatten_and_flatten_alt_are_equivalent();
        }
        out
    }

    /// Inserts `element` under key `hash`: walks the table tree, lazily
    /// materializing tables along the key's byte path, and appends the
    /// element to the key's bucket, creating the bucket on first insertion.
    ///
    /// The length bound asks only what the handle encoding forces: a fresh
    /// bucket's index plus one must fit in `usize`.
    pub fn insert(&mut self, element: Element, hash: u64)
        requires
            old(self).wf(),
            old(self).contains_key(hash) || old(self).key_seq().len() < usize::MAX,
        ensures
            final(self).wf(),
            final(self).key_seq() == old(self).keys_after_insert(hash),
            final(self).bucket_seq() == old(self).buckets_after_insert(element, hash),
    {
        let mut t: usize = 0;
        let mut level: u64 = 0;
        while level < 7
            invariant
                self.wf(),
                level <= 7,
                self.table_for(hash, level) == t as int,
                t < self.tables@.len(),
                self.keys@ == old(self).keys@,
                self.buckets@ == old(self).buckets@,
                old(self).contains_key(hash) || old(self).key_seq().len() < usize::MAX,
            decreases 7 - level,
        {
            proof {
                self.lemma_walk_info(hash, level);
                crate::bits::lemma_byte_bound(hash, level);
            }
            let b = ((hash >> (8 * level)) & 0xff) as usize;
            let s = self.tables[t][b];
            if s == 0 {
                let ghost pre = *self;
                let new_idx = self.tables.len();
                let fresh = zero_table();
                self.tables[t][b] = new_idx;
                self.tables.push(fresh);
                let ghost new_info = self.info@.push(
                    ((level + 1) as nat, prefix_of(hash, (level + 1) as u64)),
                );
                self.info = Ghost(new_info);
                proof {
                    Self::lemma_grow_table(pre, *self, hash, level, t as int);
                }
                t = new_idx;
            } else {
                proof {
                    assert(self.table_for(hash, (level + 1) as u64) == s as int);
                    assert(self.slot(t as int, byte_of(hash, level) as int) == s);
                }
                t = s;
            }
            level = level + 1;
        }
        proof {
            self.lemma_walk_info(hash, 7);
            crate::bits::lemma_byte_bound(hash, 7);
        }
        let b = ((hash >> 56) & 0xff) as usize;
        proof {
            assert(b as u64 == byte_of(hash, 7)) by (bit_vector)
                requires
                    b == ((hash >> 56) & 0xff) as usize,
            ;
        }
        let s = self.tables[t][b];
        if s == 0 {
            let ghost pre = *self;
            proof {
                assert(self.terminal_slot(hash) == 0);
                self.lemma_terminal_key(hash);
                Self::lemma_same_buckets(*self, *old(self));
            }
            let handle = self.buckets.len() + 1;
            self.tables[t][b] = handle;
            let mut fresh_bucket: Vec<Element> = Vec::new();
            fresh_bucket.push(element);
            self.buckets.push(fresh_bucket);
            let ghost new_keys = self.keys@.push(hash);
            self.keys = Ghost(new_keys);
            proof {
                Self::lemma_new_bucket(pre, *self, hash, t as int);
                assert(self.key_seq() == old(self).keys_after_insert(hash));
                assert(self.bucket_seq() =~= old(self).buckets_after_insert(element, hash));
            }
        } else {
            proof {
                assert(self.terminal_slot(hash) == s as int);
                self.lemma_terminal_key(hash);
                Self::lemma_same_buckets(*self, *old(self));
            }
            let ghost pre = *self;
            self.buckets[s - 1].push(element);
            proof {
                Self::lemma_append_bucket(pre, *self, hash, s as int);
                assert(pre.contains_key(hash) && pre.key_index(hash) == s - 1);
                assert(self.key_seq() == old(self).keys_after_insert(hash));
                assert(self.bucket_seq() =~= old(self).buckets_after_insert(element, hash));
            }
        }
    }

    /// Depth-first collection for the masked query: starting from table `t`
    /// at level `depth`, appends to `result` the bucket of every key in this
    /// subtree that matches the normalized query `hq` under `mask`, visiting
    /// slot indices in ascending order.  The ghost `idxs` carries the bucket
    /// positions appended so far.
    fn get_masked_inner<'a>(
        &'a self,
        hq: u64,
        mask: u64,
        depth: u64,
        t: usize,
        result: Vec<&'a [Element]>,
        idxs: Ghost<Seq<int>>,
    ) -> (out: (Vec<&'a [Element]>, Ghost<Seq<int>>))
        requires
            self.wf(),
            depth <= 7,
            (t as int) < self.tables@.len(),
            self.depth_of(t as int) == depth,
            hq == hq & !mask,
            (self.prefix_at(t as int) & !mask) == (hq & prefix_mask(depth)),
            forall|k: u64|
                prefix_of(k, depth) == self.prefix_at(t as int) ==> #[trigger] self.table_for(
                    k,
                    depth,
                ) == t as int,
            result@.len() == idxs@.len(),
            forall|j: int|
                0 <= j < idxs@.len() ==> 0 <= #[trigger] idxs@[j] < self.buckets@.len()
                    && result@[j]@ == self.buckets@[idxs@[j]]@,
        ensures
            out.0@.len() == out.1@.len(),
            idxs@.len() <= out.1@.len(),
            out.1@.take(idxs@.len() as int) == idxs@,
            out.0@.take(idxs@.len() as int) == result@,
            forall|j: int|
                0 <= j < out.1@.len() ==> 0 <= #[trigger] out.1@[j] < self.buckets@.len()
                    && out.0@[j]@ == self.buckets@[out.1@[j]]@,
            out.1@.skip(idxs@.len() as int).to_set() == self.matched_set(
                hq,
                mask,
                depth,
                self.prefix_at(t as int),
            ),
            out.1@.skip(idxs@.len() as int).no_duplicates(),
            self.visit_ordered(out.1@.skip(idxs@.len() as int)),
        decreases 7 - depth,
    {
        let ghost p = self.prefix_at(t as int);
        let ghost n0 = idxs@.len() as int;
        let ghost res0 = result@;
        proof {
            assert(p == p & prefix_mask(depth));
            assert(self.tables@[t as int]@.len() == 256);
        }
        let mask_byte = (mask >> (8 * depth)) & 0xff;
        let hq_byte = (hq >> (8 * depth)) & 0xff;
        proof {
            assert(mask_byte == byte_of(mask, depth));
            assert(hq_byte == byte_of(hq, depth));
        }
        let mut res = result;
        let ghost mut gidx = idxs@;
        proof {
            assert(gidx.take(n0) =~= idxs@);
            assert(res@.take(n0) =~= res0);
            assert(gidx.skip(n0) =~= Seq::<int>::empty());
            assert forall|b: int|
                Seq::<int>::empty().to_set().contains(b) <==> self.matched_below(
                    hq,
                    mask,
                    depth,
                    p,
                    0,
                ).contains(b) by {
                if 0 <= b < self.keys@.len() {
                    assert(!(byte_of(self.keys@[b], depth) < 0));
                }
            }
            assert(Seq::<int>::empty().to_set() =~= self.matched_below(hq, mask, depth, p, 0));
        }
        let mut i: usize = 0;
        while i < 256
            invariant
                self.wf(),
                depth <= 7,
                (t as int) < self.tables@.len(),
                self.depth_of(t as int) == depth,
                hq == hq & !mask,
                p == self.prefix_at(t as int),
                p == p & prefix_mask(depth),
                (p & !mask) == (hq & prefix_mask(depth)),
                forall|k: u64|
                    prefix_of(k, depth) == p ==> #[trigger] self.table_for(k, depth) == t as int,
                mask_byte == byte_of(mask, depth),
                hq_byte == byte_of(hq, depth),
                i <= 256,
                n0 == res0.len(),
                res@.len() == gidx.len(),
                n0 <= gidx.len(),
                gidx.take(n0) == idxs@,
                res@.take(n0) == res0,
                forall|j: int|
                    0 <= j < gidx.len() ==> 0 <= #[trigger] gidx[j] < self.buckets@.len()
                        && res@[j]@ == self.buckets@[gidx[j]]@,
                gidx.skip(n0).to_set() == self.matched_below(hq, mask, depth, p, i as int),
                gidx.skip(n0).no_duplicates(),
                self.visit_ordered(gidx.skip(n0)),
            decreases 256 - i,
        {
            let s = self.tables[t][i];
            let matches_here = ((i as u64) & !mask_byte) == hq_byte;
            if s != 0 && matches_here && depth == 7 {
                let ghost b0 = s as int - 1;
                proof {
                    assert(self.slot(t as int, i as int) == s);
                    lemma_full_split(self.keys@[b0], p, i as u64);
                    lemma_mask_last(hq, mask, p, i as u64);
                    assert((self.keys@[b0] & !mask) == hq);
                }
                res.push(self.buckets[s - 1].as_slice());
                proof {
                    broadcast use vstd::seq_lib::group_seq_properties;

                    let old_skip = gidx.skip(n0);
                    gidx = gidx.push(b0);
                    assert(gidx.skip(n0) =~= old_skip.push(b0));
                    assert(byte_of(self.keys@[b0], depth) == i as u64);
                    assert(!old_skip.to_set().contains(b0));
                    assert(!old_skip.contains(b0));
                    lemma_push_no_dup(old_skip, b0);
                    assert(gidx.take(n0) =~= idxs@);
                    assert(res@.take(n0) =~= res0);
                    assert forall|b: int|
                        self.matched_below(hq, mask, depth, p, i as int + 1).contains(b)
                            <==> old_skip.to_set().insert(b0).contains(b) by {
                        if 0 <= b < self.keys@.len() && prefix_of(self.keys@[b], depth) == p && (
                        self.keys@[b] & !mask) == hq && byte_of(self.keys@[b], depth) == i as u64 {
                            lemma_prefix_full(self.keys@[b]);
                            assert(self.keys@[b] == self.keys@[b0]);
                            assert(self.terminal_slot(self.keys@[b]) == b + 1);
                            assert(self.terminal_slot(self.keys@[b0]) == b0 + 1);
                        }
                    }
                    assert(gidx.skip(n0).to_set() =~= old_skip.to_set().insert(b0));
                    assert(gidx.skip(n0).to_set() =~= self.matched_below(
                        hq,
                        mask,
                        depth,
                        p,
                        i as int + 1,
                    ));
                    assert forall|x: int|
                        0 <= x < old_skip.len() implies crate::bits::rev_key(
                        self.key_seq()[#[trigger] old_skip[x]],
                    ) < crate::bits::rev_key(self.key_seq()[b0]) by {
                        assert(old_skip.to_set().contains(old_skip[x]));
                        crate::bits::lemma_rev_order(
                            self.keys@[old_skip[x]],
                            self.keys@[b0],
                            depth,
                        );
                    }
                    self.lemma_ordered_concat(old_skip, seq![b0]);
                    assert(gidx.skip(n0) =~= old_skip + seq![b0]);
                }
            } else if s != 0 && matches_here {
                proof {
                    assert(self.slot(t as int, i as int) == s);
                }
                let ghost pc = self.prefix_at(s as int);
                proof {
                    assert(pc == (p | ((i as u64) << ((8 * depth) as u64))));
                    crate::bits::lemma_mask_step(hq, mask, p, i as u64, depth);
                    assert((pc & !mask) == (hq & prefix_mask((depth + 1) as u64)));
                    assert forall|k: u64|
                        prefix_of(k, (depth + 1) as u64) == pc implies #[trigger] self.table_for(
                        k,
                        (depth + 1) as u64,
                    ) == s as int by {
                        lemma_prefix_split(k, p, i as u64, depth);
                        assert(self.table_for(k, depth) == t as int);
                    }
                }
                let ghost gpre = gidx;
                let ghost respre = res@;
                let call = self.get_masked_inner(hq, mask, depth + 1, s, res, Ghost(gidx));
                res = call.0;
                proof {
                    broadcast use vstd::seq_lib::group_seq_properties;

                    gidx = call.1@;
                    let delta = gidx.skip(gpre.len() as int);
                    assert(delta.to_set() == self.matched_set(hq, mask, (depth + 1) as u64, pc));
                    assert(gidx.take(n0) =~= idxs@) by {
                        assert(gidx.take(gpre.len() as int) == gpre);
                        assert(forall|j: int| 0 <= j < gpre.len() ==> gidx[j] == gpre[j]);
                    }
                    assert(res@.take(n0) =~= res0) by {
                        assert(res@.take(respre.len() as int) == respre);
                        assert(forall|j: int| 0 <= j < respre.len() ==> res@[j] == respre[j]);
                    }
                    let old_skip = gpre.skip(n0);
                    assert(gidx.skip(n0) =~= old_skip + delta);
                    // siblings swept so far and this child's subtree are disjoint
                    assert forall|b: int|
                        !(old_skip.to_set().contains(b) && delta.to_set().contains(b)) by {
                        if 0 <= b < self.keys@.len() && prefix_of(self.keys@[b], (depth + 1) as u64)
                            == pc {
                            lemma_prefix_split(self.keys@[b], p, i as u64, depth);
                        }
                    }
                    assert forall|x: int, y: int|
                        0 <= x < old_skip.len() && 0 <= y < delta.len() implies old_skip[x]
                        != delta[y] by {
                        assert(old_skip.to_set().contains(old_skip[x]));
                        assert(delta.to_set().contains(delta[y]));
                    }
                    vstd::seq_lib::lemma_no_dup_in_concat(old_skip, delta);
                    assert forall|b: int|
                        self.matched_below(hq, mask, depth, p, i as int + 1).contains(b)
                            <==> (old_skip.to_set() + delta.to_set()).contains(b) by {
                        if 0 <= b < self.keys@.len() && (self.keys@[b] & !mask) == hq {
                            if prefix_of(self.keys@[b], depth) == p && byte_of(
                                self.keys@[b],
                                depth,
                            ) == i as u64 {
                                lemma_prefix_extend(self.keys@[b], depth);
                            }
                            if prefix_of(self.keys@[b], (depth + 1) as u64) == pc {
                                lemma_prefix_split(self.keys@[b], p, i as u64, depth);
                            }
                        }
                    }
                    assert((old_skip + delta).to_set() =~= old_skip.to_set() + delta.to_set());
                    assert(gidx.skip(n0).to_set() =~= self.matched_below(
                        hq,
                        mask,
                        depth,
                        p,
                        i as int + 1,
                    ));
                    assert forall|x: int, y: int|
                        0 <= x < old_skip.len() && 0 <= y < delta.len() implies crate::bits::rev_key(
                        self.key_seq()[#[trigger] old_skip[x]],
                    ) < crate::bits::rev_key(self.key_seq()[#[trigger] delta[y]]) by {
                        assert(old_skip.to_set().contains(old_skip[x]));
                        assert(delta.to_set().contains(delta[y]));
                        lemma_prefix_split(self.keys@[delta[y]], p, i as u64, depth);
                        crate::bits::lemma_rev_order(
                            self.keys@[old_skip[x]],
                            self.keys@[delta[y]],
                            depth,
                        );
                    }
                    self.lemma_ordered_concat(old_skip, delta);
                }
            } else {
                proof {
                    assert forall|b: int|
                        self.matched_below(hq, mask, depth, p, i as int + 1).contains(b)
                            <==> self.matched_below(hq, mask, depth, p, i as int).contains(b) by {
                        if 0 <= b < self.keys@.len() && prefix_of(self.keys@[b], depth) == p && (
                        self.keys@[b] & !mask) == hq && byte_of(self.keys@[b], depth) == i as u64 {
                            let k = self.keys@[b];
                            if depth == 7 {
                                lemma_prefix_full(k);
                                assert(k == (p | ((i as u64) << 56)));
                                if s == 0 {
                                    assert(self.table_for(k, 7) == t as int);
                                    assert(self.terminal_slot(k) == 0);
                                    assert(self.terminal_slot(k) == b + 1);
                                } else {
                                    lemma_mask_last(hq, mask, p, i as u64);
                                }
                            } else {
                                lemma_prefix_extend(k, depth);
                                let pc = (p | ((i as u64) << ((8 * depth) as u64)));
                                assert(prefix_of(k, (depth + 1) as u64) == pc);
                                if s == 0 {
                                    assert(self.table_for(k, depth) == t as int);
                                    assert(self.slot(t as int, i as int) == 0);
                                    assert(self.table_for(k, (depth + 1) as u64) == -1);
                                    self.lemma_walk_none(k, (depth + 1) as u64, 7);
                                    assert(self.terminal_slot(k) == 0);
                                    assert(self.terminal_slot(k) == b + 1);
                                } else {
                                    crate::bits::lemma_match_prefix(k, hq, mask, (depth + 1) as u64);
                                    crate::bits::lemma_mask_step(hq, mask, p, i as u64, depth);
                                }
                            }
                        }
                    }
                    assert(self.matched_below(hq, mask, depth, p, i as int + 1)
                        =~= self.matched_below(hq, mask, depth, p, i as int));
                }
            }
            i = i + 1;
        }
        proof {
            assert forall|b: int|
                self.matched_below(hq, mask, depth, p, 256).contains(b) <==> self.matched_set(
                    hq,
                    mask,
                    depth,
                    p,
                ).contains(b) by {
                if 0 <= b < self.keys@.len() {
                    crate::bits::lemma_byte_bound(self.keys@[b], depth);
                }
            }
            assert(self.matched_below(hq, mask, depth, p, 256) =~= self.matched_set(
                hq,
                mask,
                depth,
                p,
            ));
        }
        (res, Ghost(gidx))
    }

    /// Returns the bucket views of every stored key that agrees with `hash`
    /// on all significant bit positions: a `mask` bit of 0 must match, a
    /// `mask` bit of 1 is a wildcard.  Buckets are collected by a
    /// depth-first walk visiting slot indices in ascending order; the result
    /// holds exactly the matching buckets, each once.
    pub fn get_masked(&self, hash: u64, mask: u64) -> (r: Vec<&[Element]>)
        requires
            self.wf(),
        ensures
            slice_views(r@).to_multiset() == self.matched_buckets(hash, mask).to_multiset(),
            r@.len() == self.matched_key_indices(hash, mask).len(),
            exists|ord: Seq<int>|
                #[trigger] self.masked_result_ordered(hash, mask, slice_views(r@), ord),
    {
        let hq = hash & !mask;
        proof {
            crate::bits::lemma_normalized(hash, mask);
            lemma_prefix_zero(hq);
            assert(self.prefix_at(0) == 0 && self.depth_of(0) == 0);
            assert((0u64 & !mask) == (hq & prefix_mask(0))) by (bit_vector)
                requires
                    hq == hash & !mask,
            ;
            assert forall|k: u64| prefix_of(k, 0) == 0u64 implies #[trigger] self.table_for(k, 0)
                == 0 by {}
        }
        let empty_res: Vec<&[Element]> = Vec::new();
        let ghost empty_idx: Seq<int> = Seq::empty();
        let call = self.get_masked_inner(hq, mask, 0, 0, empty_res, Ghost(empty_idx));
        let res = call.0;
        proof {
            let gidx = call.1@;
            assert(gidx.skip(0) =~= gidx);
            assert(res@.len() == gidx.len());
            let mk = self.matched_key_indices(hash, mask);
            let ident = Seq::new(self.key_seq().len(), |b: int| b);
            let pred = |b: int| masked_matches(self.key_seq()[b], hash, mask);
            assert(ident.no_duplicates());
            lemma_filter_no_dup(ident, pred);
            ident.filter_lemma(pred);
            // the root subtree holds exactly the matching keys
            assert forall|b: int| gidx.to_set().contains(b) <==> mk.contains(b) by {
                if 0 <= b < self.keys@.len() {
                    lemma_prefix_zero(self.keys@[b]);
                    assert(ident[b] == b);
                    if masked_matches(self.keys@[b], hash, mask) {
                        assert(mk.contains(ident[b]));
                    }
                    if mk.contains(b) {
                        let j = choose|j: int| 0 <= j < mk.len() && mk[j] == b;
                        assert(pred(mk[j]));
                    }
                } else {
                    if mk.contains(b) {
                        assert(ident.contains(b));
                    }
                }
            }
            assert(gidx.to_set() =~= mk.to_set()) by {
                assert forall|b: int| gidx.to_set().contains(b) <==> mk.to_set().contains(b) by {
                    assert(gidx.to_set().contains(b) == gidx.contains(b));
                    assert(mk.to_set().contains(b) == mk.contains(b));
                }
            }
            // equal sets of distinct values: equal multisets
            broadcast use vstd::seq_lib::group_to_multiset_ensures;

            gidx.lemma_multiset_has_no_duplicates();
            mk.lemma_multiset_has_no_duplicates();
            assert(gidx.to_multiset() =~= mk.to_multiset()) by {
                assert forall|b: int| gidx.to_multiset().count(b) == mk.to_multiset().count(
                    b,
                ) by {
                    if gidx.contains(b) || mk.contains(b) {
                        assert(gidx.contains(b) && mk.contains(b));
                        assert(gidx.to_multiset().count(b) == 1);
                        assert(mk.to_multiset().count(b) == 1);
                    } else {
                        assert(gidx.to_multiset().count(b) == 0);
                        assert(mk.to_multiset().count(b) == 0);
                    }
                }
            }
            let f = |b: int| self.bucket_seq()[b];
            lemma_map_mset(gidx, mk, f);
            assert(slice_views(res@) =~= gidx.map_values(f)) by {
                assert forall|j: int| 0 <= j < res@.len() implies slice_views(res@)[j]
                    == gidx.map_values(f)[j] by {
                    assert(res@[j]@ == self.buckets@[gidx[j]]@);
                }
            }
            assert(self.matched_buckets(hash, mask) == mk.map_values(f));
            gidx.unique_seq_to_set();
            mk.unique_seq_to_set();
            let rviews = slice_views(res@);
            assert(self.masked_result_ordered(hash, mask, rviews, gidx)) by {
                assert(self.keys@.len() == self.buckets@.len());
                assert forall|j: int| 0 <= j < gidx.len() implies 0 <= #[trigger] gidx[j]
                    < self.key_seq().len() && rviews[j] == self.bucket_seq()[gidx[j]]
                    && masked_matches(self.key_seq()[gidx[j]], hash, mask) by {
                    assert(res@[j]@ == self.buckets@[gidx[j]]@);
                    assert(gidx.contains(gidx[j]));
                    assert(gidx.to_set().contains(gidx[j]));
                }
                assert forall|b: int|
                    0 <= b < self.key_seq().len() && masked_matches(
                        self.key_seq()[b],
                        hash,
                        mask,
                    ) implies gidx.contains(b) by {
                    lemma_prefix_zero(self.keys@[b]);
                    assert(gidx.to_set().contains(b));
                }
            }
        }
        res
    }

    /// Returns a new, empty tree: one all-zero root table and no buckets.
    pub fn new() -> (r: Self)
        ensures
            r.wf(),
            r.key_seq() == Seq::<u64>::empty(),
            r.bucket_seq() == Seq::<Seq<Element>>::empty(),
    {
        let mut tables: Vec<Vec<usize>> = Vec::new();
        tables.push(zero_table());
        let ghost root_info: Seq<(nat, u64)> = seq![(0nat, 0u64)];
        let ghost no_keys: Seq<u64> = Seq::empty();
        let r = RadixTree {
            tables,
            buckets: Vec::new(),
            info: Ghost(root_info),
            keys: Ghost(no_keys),
        };
        proof {
            assert(0u64 == 0u64 & prefix_mask(0)) by (bit_vector);
            assert(r.bucket_seq() =~= Seq::<Seq<Element>>::empty());
        }
        r
    }
}

/// Returns a fresh all-zero table of 256 slots.
fn zero_table() -> (r: Vec<usize>)
    ensures
        r@.len() == 256,
        forall|i: int| 0 <= i < 256 ==> r@[i] == 0,
{
    let mut v: Vec<usize> = Vec::new();
    let mut n: usize = 0;
    while n < 256
        invariant
            n <= 256,
            v@.len() == n,
            forall|i: int| 0 <= i < n ==> v@[i] == 0,
        decreases 256 - n,
    {
        v.push(0);
        n = n + 1;
    }
    v
}

} // verus!
