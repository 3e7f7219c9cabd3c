//! The laws of the index, stated over the model that the operations'
//! contracts speak of: the key sequence and the bucket sequence.
//!
//! A state reached by `insert` is related to its predecessor by
//! `keys_after_insert` and `buckets_after_insert`; the lemmas here draw the
//! promised conclusions from those relations.

use vstd::prelude::*;

use crate::bits::masked_matches;
use crate::tree::lemma_filter_no_dup;
use crate::tree::lemma_push_no_dup;
use crate::tree::RadixTree;

verus! {

/// After inserting `e` under `k`, the key `k` is present and `e` is the
/// last member of its bucket.
pub proof fn lemma_insert_round_trip<Element>(
    pre: RadixTree<Element>,
    post: RadixTree<Element>,
    e: Element,
    k: u64,
)
    requires
        pre.wf(),
        post.key_seq() == pre.keys_after_insert(k),
        post.bucket_seq() == pre.buckets_after_insert(e, k),
    ensures
        post.contains_key(k),
        post.bucket_of(k).len() >= 1,
        post.bucket_of(k).last() == e,
        post.bucket_of(k) == (
        if pre.contains_key(k) {
            pre.bucket_of(k)
        } else {
            Seq::<Element>::empty()
        }).push(e),
{
    pre.lemma_keys_distinct();
    if pre.contains_key(k) {
        let ki = pre.key_index(k);
        assert(0 <= ki < pre.key_seq().len() && pre.key_seq()[ki] == k);
        assert(post.contains_key(k));
        let kj = post.key_index(k);
        assert(0 <= kj < post.key_seq().len() && post.key_seq()[kj] == k);
        assert(kj == ki);
        assert(post.bucket_of(k) == pre.bucket_of(k).push(e));
    } else {
        let n = pre.key_seq().len() as int;
        assert(post.key_seq()[n] == k);
        assert(post.contains_key(k));
        let kj = post.key_index(k);
        assert(0 <= kj < post.key_seq().len() && post.key_seq()[kj] == k);
        assert(kj == n) by {
            if kj < n {
                assert(pre.key_seq()[kj] == k);
            }
        }
        assert(post.bucket_of(k) == seq![e]);
        assert(seq![e] =~= Seq::<Element>::empty().push(e));
    }
}

/// Inserting `e1` then `e2` under one key accumulates, in order and without
/// deduplication: the key's bucket ends in `e1, e2`, and where the key was
/// fresh it holds exactly those two elements.
pub proof fn lemma_insert_accumulates<Element>(
    t0: RadixTree<Element>,
    t1: RadixTree<Element>,
    t2: RadixTree<Element>,
    e1: Element,
    e2: Element,
    k: u64,
)
    requires
        t0.wf(),
        t1.wf(),
        t1.key_seq() == t0.keys_after_insert(k),
        t1.bucket_seq() == t0.buckets_after_insert(e1, k),
        t2.key_seq() == t1.keys_after_insert(k),
        t2.bucket_seq() == t1.buckets_after_insert(e2, k),
    ensures
        t2.bucket_of(k) == (
        if t0.contains_key(k) {
            t0.bucket_of(k)
        } else {
            Seq::<Element>::empty()
        }).push(e1).push(e2),
        !t0.contains_key(k) ==> t2.bucket_of(k) == seq![e1, e2],
{
    lemma_insert_round_trip(t0, t1, e1, k);
    lemma_insert_round_trip(t1, t2, e2, k);
    if !t0.contains_key(k) {
        assert(Seq::<Element>::empty().push(e1).push(e2) =~= seq![e1, e2]);
    }
}

/// A fresh tree holds no key.
pub proof fn lemma_new_absent<Element>(t: RadixTree<Element>, k: u64)
    requires
        t.key_seq() == Seq::<u64>::empty(),
    ensures
        !t.contains_key(k),
{
}

/// Inserting under one key leaves every other key absent.
pub proof fn lemma_insert_other_absent<Element>(
    pre: RadixTree<Element>,
    post: RadixTree<Element>,
    k2: u64,
    k: u64,
)
    requires
        k != k2,
        !pre.contains_key(k),
        post.key_seq() == pre.keys_after_insert(k2),
    ensures
        !post.contains_key(k),
{
    if post.contains_key(k) {
        let i = choose|i: int| 0 <= i < post.key_seq().len() && post.key_seq()[i] == k;
        if i < pre.key_seq().len() {
            assert(pre.key_seq()[i] == k);
        }
    }
}

/// With every bit a wildcard, a masked query selects every bucket ever
/// created, in bucket-creation order.
pub proof fn lemma_masked_full_wildcard<Element>(t: RadixTree<Element>, h: u64)
    requires
        t.wf(),
    ensures
        t.matched_buckets(h, 0xffff_ffff_ffff_ffffu64) == t.bucket_seq(),
{
    t.lemma_keys_distinct();
    let m = 0xffff_ffff_ffff_ffffu64;
    assert(forall|k: u64| k & !0xffff_ffff_ffff_ffffu64 == h & !0xffff_ffff_ffff_ffffu64)
        by (bit_vector);
    let n = t.key_seq().len() as int;
    let ident = Seq::new(n as nat, |b: int| b);
    let pred = |b: int| masked_matches(t.key_seq()[b], h, m);
    lemma_filter_all(ident, pred);
    assert(t.matched_key_indices(h, m) == ident);
    assert(t.matched_buckets(h, m) =~= t.bucket_seq()) by {
        assert(t.key_seq().len() == t.bucket_seq().len());
        assert(forall|j: int|
            0 <= j < n ==> t.matched_buckets(h, m)[j] == t.bucket_seq()[#[trigger] ident[j]]);
    }
}

/// With no bit a wildcard, a masked query selects exactly the queried key's
/// bucket where that key is present, and nothing otherwise.
pub proof fn lemma_masked_exact<Element>(t: RadixTree<Element>, h: u64)
    requires
        t.wf(),
    ensures
        t.contains_key(h) ==> t.matched_buckets(h, 0) == seq![t.bucket_of(h)],
        !t.contains_key(h) ==> t.matched_buckets(h, 0) == Seq::<Seq<Element>>::empty(),
{
    assert(forall|k: u64, q: u64| (k & !0u64 == q & !0u64) == (k == q)) by (bit_vector);
    t.lemma_keys_distinct();
    let n = t.key_seq().len() as int;
    let ident = Seq::new(n as nat, |b: int| b);
    let pred = |b: int| masked_matches(t.key_seq()[b], h, 0);
    let mk = t.matched_key_indices(h, 0);
    lemma_filter_no_dup(ident, pred);
    ident.filter_lemma(pred);
    if t.contains_key(h) {
        let ki = t.key_index(h);
        assert(0 <= ki < n && t.key_seq()[ki] == h);
        assert(ident[ki] == ki && pred(ident[ki]));
        assert(mk.contains(ki));
        assert forall|j: int| 0 <= j < mk.len() implies mk[j] == ki by {
            assert(pred(mk[j]));
            assert(mk.contains(mk[j]));
            assert(ident.contains(mk[j]));
            assert(0 <= mk[j] < n);
            assert(t.key_seq()[mk[j]] == h);
        }
        assert(mk.len() >= 1);
        assert(mk.len() <= 1) by {
            if mk.len() >= 2 {
                assert(mk[0] == ki && mk[1] == ki);
            }
        }
        assert(mk =~= seq![ki]);
        assert(t.matched_buckets(h, 0) =~= seq![t.bucket_of(h)]);
    } else {
        assert(mk.len() == 0) by {
            if mk.len() > 0 {
                assert(pred(mk[0]));
                assert(mk.contains(mk[0]));
                assert(ident.contains(mk[0]));
                assert(0 <= mk[0] < n);
                assert(t.key_seq()[mk[0]] == h);
                assert(t.contains_key(h));
            }
        }
        assert(mk =~= Seq::<int>::empty());
        assert(t.matched_buckets(h, 0) =~= Seq::<Seq<Element>>::empty());
    }
}

/// Filtering with a predicate that holds everywhere changes nothing.
proof fn lemma_filter_all<A>(s: Seq<A>, pred: spec_fn(A) -> bool)
    requires
        forall|i: int| 0 <= i < s.len() ==> pred(#[trigger] s[i]),
    ensures
        s.filter(pred) == s,
    decreases s.len(),
{
    reveal(Seq::filter);
    if s.len() == 0 {
        assert(s.filter(pred) =~= s);
    } else {
        let rest = s.drop_last();
        lemma_filter_all(rest, pred);
        assert(pred(s.last()));
        assert(s.filter(pred) == rest.filter(pred).push(s.last()));
        assert(rest.push(s.last()) =~= s);
    }
}

} // verus!
