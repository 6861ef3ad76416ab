//! Laws that tie the store's operations together, stated over the
//! operations' transition predicates and proved once and for all.

use crate::layout::block_count;
use crate::layout::gather;
use crate::layout::lemma_padded_len_bounds;
use crate::layout::padded_len;
use crate::store::insert_post;
use crate::store::remove_post;
use crate::store::Chunk;
use vstd::prelude::*;

verus! {

/// Round trip: after `insert(k, v)` the store maps `k` to exactly `v`, byte
/// for byte and at its original length, whether or not `v`'s length is a
/// multiple of the block size.  `get(k)` therefore returns exactly `v`.
pub proof fn lemma_round_trip(pre: Chunk, post: Chunk, key: Seq<char>, value: Seq<u8>)
    requires
        insert_post(pre, post, key, value),
    ensures
        post.has_key(key),
        post@.contains_key(key),
        post@[key] == value,
{
}

/// Tombstone: after removing a live key, the key is absent — `get` returns
/// nothing — and a second remove of the same key returns false and changes
/// nothing.
pub proof fn lemma_tombstone(s0: Chunk, s1: Chunk, s2: Chunk, key: Seq<char>, second: bool)
    requires
        remove_post(s0, s1, key, true),
        remove_post(s1, s2, key, second),
    ensures
        !s1.has_key(key),
        !s1@.contains_key(key),
        !second,
        s2@ == s1@,
{
}

/// Free-block reuse determinism: starting from a store with no free blocks,
/// if key `a` is inserted and then removed, and key `b` is inserted with a
/// block count no larger than what `a` freed, then `b`'s blocks are exactly
/// the first of the offsets freed by `a`'s removal, in order, and the arena
/// does not grow for `b`'s insert.
pub proof fn lemma_reuse_determinism(
    s0: Chunk,
    s1: Chunk,
    s2: Chunk,
    s3: Chunk,
    a: Seq<char>,
    b: Seq<char>,
    va: Seq<u8>,
    vb: Seq<u8>,
)
    requires
        s0.wf(),
        s0.drop_blocks@.len() == 0,
        insert_post(s0, s1, a, va),
        remove_post(s1, s2, a, true),
        insert_post(s2, s3, b, vb),
        block_count(vb.len() as int, s0.bs()) <= block_count(va.len() as int, s0.bs()),
    ensures
        s3.storage@.len() == s2.storage@.len(),
        s3.entry_of(b).blocks@ == s1.entry_of(a).blocks@.take(
            block_count(vb.len() as int, s0.bs()),
        ),
{
    let bs = s0.bs();
    let na = block_count(va.len() as int, bs);
    let nb = block_count(vb.len() as int, bs);
    lemma_padded_len_bounds(va.len() as int, bs);
    lemma_padded_len_bounds(vb.len() as int, bs);
    let blocks_a = s1.entry_of(a).blocks@;
    assert(blocks_a =~= Seq::new(na as nat, |i: int| (s0.storage@.len() + i * bs) as u64));
    assert(s1.drop_blocks@ =~= Seq::<u64>::empty());
    assert(s2.drop_blocks@ =~= blocks_a);
    assert(s2.drop_blocks@.len() == na);
    assert(s3.storage@.len() == s2.storage@.len() + (nb - nb) * bs);
    assert((nb - nb) * bs == 0) by (nonlinear_arith);
    assert(s3.entry_of(b).blocks@ =~= s2.drop_blocks@.take(nb));
}

/// Arena growth bound: an insert grows the arena by exactly the block size
/// times the number of appended blocks — the blocks its value needed beyond
/// what the free list could serve — so the arena never shrinks and always
/// stays a whole number of blocks.  A remove leaves the arena untouched.
pub proof fn lemma_arena_growth(pre: Chunk, post: Chunk, key: Seq<char>, value: Seq<u8>)
    requires
        pre.wf(),
        insert_post(pre, post, key, value),
    ensures
        ({
            let n = block_count(value.len() as int, pre.bs());
            let dl = pre.drop_blocks@.len() as int;
            let r = if n <= dl {
                n
            } else {
                dl
            };
            post.storage@.len() == pre.storage@.len() + (n - r) * pre.bs()
        }),
        post.storage@.len() >= pre.storage@.len(),
        post.storage@.len() as int % pre.bs() == 0,
{
    let n = block_count(value.len() as int, pre.bs());
    let dl = pre.drop_blocks@.len() as int;
    let r = if n <= dl {
        n
    } else {
        dl
    };
    lemma_padded_len_bounds(value.len() as int, pre.bs());
    assert((n - r) * pre.bs() >= 0) by (nonlinear_arith)
        requires
            0 <= r <= n,
            pre.bs() > 0,
    ;
}

/// The arena after a remove, byte for byte, is the arena before it.
pub proof fn lemma_arena_stable_on_remove(pre: Chunk, post: Chunk, key: Seq<char>, removed: bool)
    requires
        remove_post(pre, post, key, removed),
    ensures
        post.storage@ == pre.storage@,
{
}

/// Padding correctness: the bytes that an insert lays down for a key are the
/// value followed by zero padding up to a whole number of blocks — so the
/// padding in the last physical block is zero — while the value the store
/// maps the key to is exactly the unpadded value: `get` never exposes the
/// padding.
pub proof fn lemma_padding(pre: Chunk, post: Chunk, key: Seq<char>, value: Seq<u8>)
    requires
        pre.wf(),
        insert_post(pre, post, key, value),
    ensures
        ({
            let laid = gather(post.storage@, post.entry_of(key).blocks@, pre.bs());
            &&& laid.len() == padded_len(value.len() as int, pre.bs())
            &&& forall|i: int| 0 <= i < value.len() ==> laid[i] == value[i]
            &&& forall|i: int| value.len() <= i < laid.len() ==> laid[i] == 0
        }),
        post@[key] == value,
{
    lemma_padded_len_bounds(value.len() as int, pre.bs());
}

/// Idempotent empty value: inserting an empty value stores an entry with
/// zero blocks and length zero, consumes no free block, grows nothing, and
/// `get` then returns the empty byte sequence.
pub proof fn lemma_empty_value(pre: Chunk, post: Chunk, key: Seq<char>)
    requires
        pre.wf(),
        insert_post(pre, post, key, Seq::<u8>::empty()),
    ensures
        post@[key] == Seq::<u8>::empty(),
        post.entry_of(key).blocks@.len() == 0,
        post.entry_of(key).count == 0,
        post.storage@.len() == pre.storage@.len(),
        post.drop_blocks@ == pre.drop_blocks@,
{
    let bs = pre.bs();
    lemma_padded_len_bounds(0, bs);
    assert(block_count(0, bs) == 0);
    assert((0 - 0) * bs == 0) by (nonlinear_arith);
    assert(pre.drop_blocks@.skip(0) =~= pre.drop_blocks@);
}

} // verus!
