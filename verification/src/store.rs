//! The block store itself: the [`Chunk`] type with its arena, free list and
//! key index, and the three operations `insert`, `get` and `remove`.

use crate::layout::block_at;
use crate::layout::block_count;
use crate::layout::chunk_byte;
use crate::layout::chunk_seq;
use crate::layout::covered;
use crate::layout::distinct;
use crate::layout::gather;
use crate::layout::lemma_aligned_disjoint;
use crate::layout::lemma_gather_eq_padded;
use crate::layout::lemma_gather_len;
use crate::layout::lemma_gather_stable;
use crate::layout::lemma_padded_len_bounds;
use crate::layout::offsets_in;
use crate::layout::padded_bytes;
use crate::layout::padded_len;
use vstd::prelude::*;

verus! {

broadcast use vstd::arithmetic::mul::lemma_mul_is_commutative;

/// Per-key metadata: the original byte length of the value and the ordered
/// list of block offsets that reconstruct it.
pub struct Index {
    pub count: u64,
    pub blocks: Vec<u64>,
}

/// A fixed-block keyed store: one growable arena, a free list of block
/// offsets pending reuse, and a map from keys to index entries.
pub struct Chunk {
    pub chunk_size: u64,
    pub storage: Vec<u8>,
    pub drop_blocks: Vec<u64>,
    pub indexs: Vec<(String, Index)>,
}

/// No block of `e` stands in the offset list `offs`.
pub open spec fn entry_avoids(e: Index, offs: Seq<u64>) -> bool {
    forall|x: int, y: int|
        0 <= x < e.blocks@.len() && 0 <= y < offs.len() ==> e.blocks@[x] != offs[y]
}

/// The two entries own no block in common.
pub open spec fn entries_disjoint(a: Index, b: Index) -> bool {
    forall|x: int, y: int|
        0 <= x < a.blocks@.len() && 0 <= y < b.blocks@.len() ==> a.blocks@[x] != b.blocks@[y]
}

impl Chunk {
    /// The block size as a mathematical integer.
    pub open spec fn bs(self) -> int {
        self.chunk_size as int
    }

    /// No two index entries carry the same key.
    pub open spec fn keys_unique(self) -> bool {
        forall|i: int, j: int|
            0 <= i < j < self.indexs@.len() ==> self.indexs@[i].0@ != self.indexs@[j].0@
    }

    /// Some index entry carries the key `k`.
    pub open spec fn has_key(self, k: Seq<char>) -> bool {
        exists|i: int| 0 <= i < self.indexs@.len() && (#[trigger] self.indexs@[i]).0@ == k
    }

    /// The position of the entry that carries `k` (meaningful when
    /// `has_key(k)` holds and keys are unique).
    pub open spec fn key_pos(self, k: Seq<char>) -> int {
        choose|i: int| 0 <= i < self.indexs@.len() && (#[trigger] self.indexs@[i]).0@ == k
    }

    /// The index entry stored under `k`.
    pub open spec fn entry_of(self, k: Seq<char>) -> Index {
        self.indexs@[self.key_pos(k)].1
    }

    /// The value an entry reconstructs: its blocks gathered from the arena,
    /// truncated to the original length.
    pub open spec fn entry_bytes(self, e: Index) -> Seq<u8> {
        gather(self.storage@, e.blocks@, self.bs()).take(e.count as int)
    }

    /// A well-formed entry: distinct block-aligned offsets inside the arena,
    /// enough of them to hold `count` bytes.
    pub open spec fn entry_wf(self, e: Index) -> bool {
        &&& offsets_in(e.blocks@, self.bs(), self.storage@.len() as int)
        &&& distinct(e.blocks@)
        &&& e.count as int <= self.bs() * e.blocks@.len()
    }

    /// The store's invariant: a positive block size, an arena that is a whole
    /// number of blocks, a free list and index entries of well-formed block
    /// offsets, no block both free and live, and no block shared by two keys.
    pub open spec fn wf(self) -> bool {
        &&& 0 < self.chunk_size <= usize::MAX as u64
        &&& self.storage@.len() as int % self.bs() == 0
        &&& offsets_in(self.drop_blocks@, self.bs(), self.storage@.len() as int)
        &&& distinct(self.drop_blocks@)
        &&& self.keys_unique()
        &&& forall|i: int|
            0 <= i < self.indexs@.len() ==> self.entry_wf((#[trigger] self.indexs@[i]).1)
        &&& forall|i: int|
            0 <= i < self.indexs@.len() ==> entry_avoids(
                (#[trigger] self.indexs@[i]).1,
                self.drop_blocks@,
            )
        &&& forall|i: int, j: int|
            0 <= i < self.indexs@.len() && 0 <= j < self.indexs@.len() && i != j
                ==> entries_disjoint(
                (#[trigger] self.indexs@[i]).1,
                (#[trigger] self.indexs@[j]).1,
            )
    }

    /// Creates an empty store whose blocks are `size` bytes each.
    pub fn new(size: u64) -> (r: Chunk)
        requires
            0 < size <= usize::MAX as u64,
        ensures
            r.wf(),
            r.chunk_size == size,
            r.storage@.len() == 0,
            r.drop_blocks@.len() == 0,
            r.indexs@.len() == 0,
            r@ == Map::<Seq<char>, Seq<u8>>::empty(),
    {
        let c = Chunk {
            chunk_size: size,
            storage: Vec::new(),
            drop_blocks: Vec::new(),
            indexs: Vec::new(),
        };
        proof {
            vstd::arithmetic::div_mod::lemma_small_mod(0nat, size as nat);
            assert(c@ =~= Map::<Seq<char>, Seq<u8>>::empty());
        }
        c
    }

    /// Linear search of the index for `key`.
    fn find_key(&self, key: &String) -> (r: Option<usize>)
        requires
            self.keys_unique(),
        ensures
            match r {
                Some(p) => self.has_key(key@) && p == self.key_pos(key@) && p
                    < self.indexs@.len() && self.indexs@[p as int].0@ == key@,
                None => !self.has_key(key@),
            },
    {
        let mut i: usize = 0;
        let n = self.indexs.len();
        while i < n
            invariant
                i <= n,
                n == self.indexs@.len(),
                self.keys_unique(),
                forall|jj: int| 0 <= jj < i ==> (#[trigger] self.indexs@[jj]).0@ != key@,
            decreases n - i,
        {
            let pair: &(String, Index) = &self.indexs[i];
            if pair.0 == *key {
                proof {
                    assert(self.has_key(key@));
                    let w = self.key_pos(key@);
                    assert(0 <= w < self.indexs@.len() && self.indexs@[w].0@ == key@);
                    if w != i as int {
                        if w < i as int {
                            assert(self.indexs@[w].0@ != self.indexs@[i as int].0@);
                        } else {
                            assert(self.indexs@[i as int].0@ != self.indexs@[w].0@);
                        }
                    }
                }
                return Some(i);
            }
            i += 1;
        }
        None
    }

    /// Returns the value stored under `key`, or nothing if the key is absent.
    /// The store itself is left exactly as it was.
    pub fn get(&mut self, key: String) -> (r: Option<Vec<u8>>)
        requires
            old(self).wf(),
        ensures
            *final(self) == *old(self),
            match r {
                Some(v) => old(self).has_key(key@) && v@ == old(self)@[key@],
                None => !old(self).has_key(key@),
            },
    {
        let found = self.find_key(&key);
        match found {
            None => None,
            Some(p) => {
                let cs = self.chunk_size as usize;
                let num = self.indexs[p].1.blocks.len();
                let count = self.indexs[p].1.count;
                let ghost e = self.indexs@[p as int].1;
                let ghost arena = self.storage@;
                let ghost bsi = self.bs();
                proof {
                    assert(self.entry_wf(e));
                    assert(cs as int == bsi);
                }
                let mut bufs: Vec<u8> = Vec::new();
                let mut ii: usize = 0;
                while ii < num
                    invariant
                        ii <= num,
                        *self == *old(self),
                        self.wf(),
                        cs as int == bsi,
                        bsi == self.bs(),
                        arena == self.storage@,
                        p < self.indexs@.len(),
                        e == self.indexs@[p as int].1,
                        self.entry_wf(e),
                        num == e.blocks@.len(),
                        bufs@ == gather(arena, e.blocks@.take(ii as int), bsi),
                    decreases num - ii,
                {
                    let off = self.indexs[p].1.blocks[ii];
                    let sl = self.storage.len();
                    proof {
                        assert(e.blocks@[ii as int] == off);
                        assert(off as int % bsi == 0 && off as int + bsi <= arena.len());
                        assert(off <= usize::MAX as u64);
                    }
                    let start = off as usize;
                    if start + cs <= sl {
                        let mut t: usize = 0;
                        while t < cs
                            invariant
                                t <= cs,
                                *self == *old(self),
                                cs as int == bsi,
                                arena == self.storage@,
                                start as int == off as int,
                                start as int + cs as int <= usize::MAX as int,
                                off as int + bsi <= arena.len(),
                                bufs@ == gather(arena, e.blocks@.take(ii as int), bsi)
                                    + arena.subrange(off as int, off as int + t as int),
                            decreases cs - t,
                        {
                            let b = self.storage[start + t];
                            bufs.push(b);
                            proof {
                                assert(arena.subrange(off as int, off as int + (t + 1) as int)
                                    =~= arena.subrange(off as int, off as int + t as int).push(b));
                            }
                            t += 1;
                        }
                    }
                    proof {
                        let taken = e.blocks@.take(ii as int);
                        let taken1 = e.blocks@.take(ii as int + 1);
                        assert(taken1.drop_last() =~= taken);
                        assert(taken1.last() == off);
                        assert(block_at(arena, off as int, bsi) == arena.subrange(
                            off as int,
                            off as int + bsi,
                        ));
                        assert(bufs@ == gather(arena, taken1, bsi));
                    }
                    ii += 1;
                }
                let total = bufs.len();
                proof {
                    assert(e.blocks@.take(num as int) =~= e.blocks@);
                    lemma_gather_len(arena, e.blocks@, bsi);
                    assert(count as int <= bsi * e.blocks@.len());
                    assert(total as int == e.blocks@.len() * bsi);
                    assert(count as int <= total as int);
                }
                let c = count as usize;
                bufs.truncate(c);
                proof {
                    assert(bufs@ == old(self).entry_bytes(e));
                    assert(old(self).key_pos(key@) == p as int);
                    assert(old(self)@[key@] == old(self).entry_bytes(e));
                }
                Some(bufs)
            },
        }
    }
}

/// Overwrites, in place, the `cs`-byte window of the arena at `off` with
/// block `j` of the split of `value`, zero-padding past the value's end.
/// No other byte of the arena moves or changes.
#[verifier::loop_isolation(false)]
fn write_block(arena: &mut Vec<u8>, off: usize, value: &Vec<u8>, j: usize, cs: usize)
    requires
        0 < cs,
        off + cs <= old(arena).len(),
        j * cs + cs <= usize::MAX,
    ensures
        final(arena)@.len() == old(arena)@.len(),
        forall|i: int|
            0 <= i < old(arena)@.len() && !(off <= i < off + cs) ==> final(arena)@[i] == old(
                arena,
            )@[i],
        forall|t: int|
            0 <= t < cs ==> final(arena)@[off + t] == #[trigger] chunk_byte(
                value@,
                cs as int,
                j as int,
                t,
            ),
{
    let mut t: usize = 0;
    while t < cs
        invariant
            t <= cs,
            arena@.len() == old(arena)@.len(),
            forall|i: int|
                0 <= i < old(arena)@.len() && !(off <= i < off + t) ==> arena@[i] == old(
                    arena,
                )@[i],
            forall|tt: int|
                0 <= tt < t ==> arena@[off + tt] == #[trigger] chunk_byte(
                    value@,
                    cs as int,
                    j as int,
                    tt,
                ),
        decreases cs - t,
    {
        let idx: usize = j * cs + t;
        let b: u8 = if idx < value.len() {
            value[idx]
        } else {
            0u8
        };
        arena.set(off + t, b);
        t += 1;
    }
}

/// Appends block `j` of the split of `value` to the end of the arena,
/// growing it by exactly `cs` bytes.
#[verifier::loop_isolation(false)]
fn append_block(arena: &mut Vec<u8>, value: &Vec<u8>, j: usize, cs: usize)
    requires
        0 < cs,
        j * cs + cs <= usize::MAX,
        old(arena).len() + cs <= usize::MAX,
    ensures
        final(arena)@ == old(arena)@ + chunk_seq(value@, cs as int, j as int),
{
    let ghost piece = chunk_seq(value@, cs as int, j as int);
    let mut t: usize = 0;
    while t < cs
        invariant
            t <= cs,
            arena@ == old(arena)@ + piece.take(t as int),
        decreases cs - t,
    {
        let idx: usize = j * cs + t;
        let b: u8 = if idx < value.len() {
            value[idx]
        } else {
            0u8
        };
        arena.push(b);
        proof {
            assert(piece.take(t as int + 1) =~= piece.take(t as int).push(b));
        }
        t += 1;
    }
    proof {
        assert(piece.take(cs as int) =~= piece);
    }
}

impl Chunk {
    /// Stores `e` under `key` in the index, replacing in place any entry
    /// that carried the key before, else appending.
    fn put_entry(&mut self, key: String, e: Index)
        requires
            old(self).keys_unique(),
        ensures
            final(self).chunk_size == old(self).chunk_size,
            final(self).storage@ == old(self).storage@,
            final(self).drop_blocks@ == old(self).drop_blocks@,
            final(self).keys_unique(),
            final(self).has_key(key@),
            final(self).entry_of(key@) == e,
            old(self).has_key(key@) ==> final(self).indexs@ == old(self).indexs@.update(
                old(self).key_pos(key@),
                (key, e),
            ),
            !old(self).has_key(key@) ==> final(self).indexs@ == old(self).indexs@.push((key, e)),
            forall|k2: Seq<char>|
                k2 != key@ ==> (final(self).has_key(k2) <==> old(self).has_key(k2)),
            forall|k2: Seq<char>|
                k2 != key@ && old(self).has_key(k2) ==> final(self).entry_of(k2) == old(
                    self,
                ).entry_of(k2),
    {
        let found = self.find_key(&key);
        let ghost pre = *old(self);
        match found {
            Some(p) => {
                self.indexs.set(p, (key, e));
                proof {
                    lemma_after_update(pre, *self, key@, e, p as int);
                }
            },
            None => {
                self.indexs.push((key, e));
                proof {
                    lemma_after_update(pre, *self, key@, e, pre.indexs@.len() as int);
                }
            },
        }
    }
}

/// After the pair `(key, e)` lands at position `p` of the index — in place
/// of the entry that carried `key`, or appended when none did — keys stay
/// unique and every other key keeps its entry.
proof fn lemma_after_update(pre: Chunk, post: Chunk, key: Seq<char>, e: Index, p: int)
    requires
        pre.keys_unique(),
        0 <= p <= pre.indexs@.len(),
        p < pre.indexs@.len() ==> pre.indexs@[p].0@ == key,
        p == pre.indexs@.len() ==> !pre.has_key(key),
        post.indexs@.len() == if p < pre.indexs@.len() {
            pre.indexs@.len()
        } else {
            pre.indexs@.len() + 1
        },
        0 <= p < post.indexs@.len(),
        post.indexs@[p].0@ == key,
        post.indexs@[p].1 == e,
        forall|i: int| 0 <= i < post.indexs@.len() && i != p ==> post.indexs@[i] == pre.indexs@[i],
    ensures
        post.keys_unique(),
        post.has_key(key),
        post.entry_of(key) == e,
        post.key_pos(key) == p,
        forall|k2: Seq<char>| k2 != key ==> (post.has_key(k2) <==> pre.has_key(k2)),
        forall|k2: Seq<char>|
            k2 != key && pre.has_key(k2) ==> post.entry_of(k2) == pre.entry_of(k2)
                && post.key_pos(k2) == pre.key_pos(k2),
{
    assert(post.keys_unique()) by {
        assert forall|i: int, j: int| 0 <= i < j < post.indexs@.len() implies post.indexs@[i].0@
            != post.indexs@[j].0@ by {
            if i != p && j != p {
                assert(pre.indexs@[i].0@ != pre.indexs@[j].0@);
            } else if i == p && j != p {
                if post.indexs@[j].0@ == key {
                    assert(pre.has_key(key));
                    if p < pre.indexs@.len() {
                        assert(pre.indexs@[p].0@ == pre.indexs@[j].0@);
                    }
                }
            } else if j == p && i != p {
                if post.indexs@[i].0@ == key {
                    assert(pre.has_key(key));
                    if p < pre.indexs@.len() {
                        assert(pre.indexs@[i].0@ == pre.indexs@[p].0@);
                    }
                }
            }
        }
    }
    assert(post.has_key(key));
    let w = post.key_pos(key);
    assert(0 <= w < post.indexs@.len() && post.indexs@[w].0@ == key);
    if w != p {
        if w < p {
            assert(post.indexs@[w].0@ != post.indexs@[p].0@);
        } else {
            assert(post.indexs@[p].0@ != post.indexs@[w].0@);
        }
    }
    assert forall|k2: Seq<char>| k2 != key implies (post.has_key(k2) <==> pre.has_key(k2)) by {
        if post.has_key(k2) {
            let v = choose|i: int|
                0 <= i < post.indexs@.len() && (#[trigger] post.indexs@[i]).0@ == k2;
            assert(v != p);
            assert(pre.indexs@[v].0@ == k2);
        }
        if pre.has_key(k2) {
            let v = choose|i: int|
                0 <= i < pre.indexs@.len() && (#[trigger] pre.indexs@[i]).0@ == k2;
            if v == p {
                assert(pre.indexs@[p].0@ == key);
            }
            assert(post.indexs@[v].0@ == k2);
        }
    }
    assert forall|k2: Seq<char>| k2 != key && pre.has_key(k2) implies post.entry_of(k2)
        == pre.entry_of(k2) && post.key_pos(k2) == pre.key_pos(k2) by {
        let v = pre.key_pos(k2);
        assert(0 <= v < pre.indexs@.len() && pre.indexs@[v].0@ == k2);
        if v == p && p < pre.indexs@.len() {
            assert(pre.indexs@[p].0@ == key);
        }
        assert(post.indexs@[v] == pre.indexs@[v]);
        assert(post.has_key(k2));
        let u = post.key_pos(k2);
        assert(0 <= u < post.indexs@.len() && post.indexs@[u].0@ == k2);
        if u != v {
            if u < v {
                assert(post.indexs@[u].0@ != post.indexs@[v].0@);
            } else {
                assert(post.indexs@[v].0@ != post.indexs@[u].0@);
            }
        }
    }
}

/// Everything `insert` promises: the key now maps to `value`; the first free
/// blocks, in free-list order, were overwritten in place and taken off the
/// free list; the remaining blocks were appended, so the arena grew by
/// exactly the blocks that no free block could serve; the blocks now hold
/// the zero-padded split of `value`; every byte outside the consumed free
/// blocks is untouched; and every other key keeps its entry and its value.
pub open spec fn insert_post(pre: Chunk, post: Chunk, key: Seq<char>, value: Seq<u8>) -> bool {
    let bs = pre.bs();
    let n = block_count(value.len() as int, bs);
    let dl = pre.drop_blocks@.len() as int;
    let r = if n <= dl {
        n
    } else {
        dl
    };
    &&& post.wf()
    &&& post.chunk_size == pre.chunk_size
    &&& post@ == pre@.insert(key, value)
    &&& post.drop_blocks@ == pre.drop_blocks@.skip(r)
    &&& post.storage@.len() == pre.storage@.len() + (n - r) * bs
    &&& post.has_key(key)
    &&& post.entry_of(key).count == value.len()
    &&& post.entry_of(key).blocks@ == pre.drop_blocks@.take(r) + Seq::new(
        (n - r) as nat,
        |i: int| (pre.storage@.len() + i * bs) as u64,
    )
    &&& gather(post.storage@, post.entry_of(key).blocks@, bs) == padded_bytes(value, bs)
    &&& forall|i: int|
        0 <= i < pre.storage@.len() && !covered(pre.drop_blocks@.take(r), bs, i)
            ==> post.storage@[i] == pre.storage@[i]
    &&& forall|k2: Seq<char>| k2 != key ==> (post.has_key(k2) <==> pre.has_key(k2))
    &&& forall|k2: Seq<char>|
        k2 != key && pre.has_key(k2) ==> post.entry_of(k2) == pre.entry_of(k2)
}

impl Chunk {
    /// Stores `value` under `key`, replacing any prior entry for the key
    /// (without freeing the prior entry's blocks).  The value is split into
    /// zero-padded blocks; free blocks are consumed first, in free-list
    /// order, by overwriting them in place; the rest is appended.
    #[verifier::loop_isolation(false)]
    #[verifier::rlimit(60)]
    pub fn insert(&mut self, key: String, value: Vec<u8>)
        requires
            old(self).wf(),
            old(self).storage@.len() + padded_len(value@.len() as int, old(self).bs())
                <= usize::MAX,
        ensures
            insert_post(*old(self), *final(self), key@, value@),
    {
        let ghost pre = *old(self);
        let ghost bs = pre.bs();
        let ghost vlen = value@.len() as int;
        proof {
            lemma_padded_len_bounds(vlen, bs);
            assert(block_count(vlen, bs) <= padded_len(vlen, bs)) by (nonlinear_arith)
                requires
                    bs >= 1,
                    block_count(vlen, bs) >= 0,
                    padded_len(vlen, bs) == block_count(vlen, bs) * bs,
            ;
        }
        let cs: usize = self.chunk_size as usize;
        let len: usize = value.len();
        let q: usize = len / cs;
        let n: usize = if len % cs == 0 {
            q
        } else {
            q + 1
        };
        proof {
            assert(cs as int == bs);
            assert(n as int == block_count(vlen, bs));
            assert(n as int * bs == padded_len(vlen, bs));
        }
        let mut assigned: Vec<u64> = Vec::new();
        let mut j: usize = 0;

        // First pass: overwrite free blocks in place, in free-list order.
        while j < n && j < self.drop_blocks.len()
            invariant
                j <= n,
                j <= pre.drop_blocks@.len(),
                self.chunk_size == pre.chunk_size,
                self.drop_blocks@ == pre.drop_blocks@,
                self.indexs@ == pre.indexs@,
                self.storage@.len() == pre.storage@.len(),
                assigned@ == pre.drop_blocks@.take(j as int),
                forall|i: int|
                    0 <= i < pre.storage@.len() && !covered(
                        pre.drop_blocks@.take(j as int),
                        bs,
                        i,
                    ) ==> self.storage@[i] == pre.storage@[i],
                forall|jj: int, t: int|
                    0 <= jj < j && 0 <= t < bs ==> self.storage@[assigned@[jj] as int + t]
                        == #[trigger] chunk_byte(value@, bs, jj, t),
            decreases n - j,
        {
            let off: u64 = self.drop_blocks[j];
            proof {
                assert(off == pre.drop_blocks@[j as int]);
                assert(off as int % bs == 0 && off as int + bs <= pre.storage@.len());
                assert(j as int * bs + bs <= n as int * bs) by (nonlinear_arith)
                    requires
                        j < n,
                        bs > 0,
                ;
                assert(j as int * bs + bs <= usize::MAX);
            }
            let start: usize = off as usize;
            let ghost before = self.storage@;
            write_block(&mut self.storage, start, &value, j, cs);
            assigned.push(off);
            proof {
                let taken = pre.drop_blocks@.take(j as int);
                let taken1 = pre.drop_blocks@.take(j as int + 1);
                assert(taken1 =~= taken.push(off));
                assert forall|i: int|
                    0 <= i < pre.storage@.len() && !covered(taken1, bs, i) implies self.storage@[i]
                    == pre.storage@[i] by {
                    if covered(taken, bs, i) {
                        let w = choose|w: int|
                            0 <= w < taken.len() && (#[trigger] taken[w]) as int <= i < taken[w] as int
                                + bs;
                        assert(taken1[w] == taken[w]);
                        assert(covered(taken1, bs, i));
                    }
                    assert(!(start <= i < start + cs)) by {
                        if start <= i < start + cs {
                            assert(taken1[j as int] == off);
                            assert(covered(taken1, bs, i));
                        }
                    }
                    assert(before[i] == pre.storage@[i]);
                }
                assert forall|jj: int, t: int| 0 <= jj < j + 1 && 0 <= t < bs implies self.storage@[
                    assigned@[jj] as int + t] == #[trigger] chunk_byte(value@, bs, jj, t) by {
                    if jj == j as int {
                        assert(assigned@[jj] == off);
                        assert(self.storage@[start as int + t] == chunk_byte(
                            value@,
                            cs as int,
                            j as int,
                            t,
                        ));
                    } else {
                        let o1 = assigned@[jj] as int;
                        assert(assigned@[jj] == pre.drop_blocks@[jj]);
                        assert(o1 % bs == 0 && o1 + bs <= pre.storage@.len());
                        assert(pre.drop_blocks@[jj] != pre.drop_blocks@[j as int]);
                        lemma_aligned_disjoint(o1, off as int, bs);
                        assert(before[o1 + t] == chunk_byte(value@, bs, jj, t));
                        assert(!(start <= o1 + t < start + cs));
                    }
                }
            }
            j += 1;
        }
        let reused: usize = j;
        let ghost rr = reused as int;
        proof {
            assert(rr == if n as int <= pre.drop_blocks@.len() as int {
                n as int
            } else {
                pre.drop_blocks@.len() as int
            });
        }
        // Take the consumed offsets off the free list, keeping the rest in order.
        let mut rest: Vec<u64> = Vec::new();
        let dlen: usize = self.drop_blocks.len();
        let mut t2: usize = reused;
        while t2 < dlen
            invariant
                reused <= t2 <= dlen,
                rest@ == pre.drop_blocks@.subrange(rr, t2 as int),
            decreases dlen - t2,
        {
            let v: u64 = self.drop_blocks[t2];
            rest.push(v);
            proof {
                assert(pre.drop_blocks@.subrange(rr, t2 as int + 1) =~= pre.drop_blocks@.subrange(
                    rr,
                    t2 as int,
                ).push(v));
            }
            t2 += 1;
        }
        self.drop_blocks = rest;
        proof {
            assert(self.drop_blocks@ == pre.drop_blocks@.skip(rr));
            assert(assigned@ =~= pre.drop_blocks@.take(rr) + Seq::new(
                0nat,
                |i: int| (pre.storage@.len() + i * bs) as u64,
            ));
            assert(self.storage@.len() as int == pre.storage@.len() + (reused - reused) as int
                * bs) by (nonlinear_arith)
                requires
                    self.storage@.len() == pre.storage@.len(),
            ;
            assert(offsets_in(assigned@, bs, self.storage@.len() as int)) by {
                assert forall|x: int| 0 <= x < assigned@.len() implies (#[trigger] assigned@[x]) as int
                    % bs == 0 && assigned@[x] as int + bs <= self.storage@.len() as int by {
                    assert(assigned@[x] == pre.drop_blocks@[x]);
                }
            }
            assert(distinct(assigned@)) by {
                assert forall|x: int, y: int| 0 <= x < y < assigned@.len() implies assigned@[x]
                    != assigned@[y] by {
                    assert(assigned@[x] == pre.drop_blocks@[x]);
                    assert(assigned@[y] == pre.drop_blocks@[y]);
                }
            }
        }

        // Second pass: append the blocks that no free block could serve.
        while j < n
            invariant
                reused <= j <= n,
                self.chunk_size == pre.chunk_size,
                self.indexs@ == pre.indexs@,
                self.drop_blocks@ == pre.drop_blocks@.skip(rr),
                self.storage@.len() == pre.storage@.len() + (j - reused) as int * bs,
                assigned@.len() == j as int,
                assigned@ == pre.drop_blocks@.take(rr) + Seq::new(
                    (j - reused) as nat,
                    |i: int| (pre.storage@.len() + i * bs) as u64,
                ),
                offsets_in(assigned@, bs, self.storage@.len() as int),
                distinct(assigned@),
                forall|i: int|
                    0 <= i < pre.storage@.len() && !covered(pre.drop_blocks@.take(rr), bs, i)
                        ==> self.storage@[i] == pre.storage@[i],
                forall|jj: int, t: int|
                    0 <= jj < j && 0 <= t < bs ==> self.storage@[assigned@[jj] as int + t]
                        == #[trigger] chunk_byte(value@, bs, jj, t),
            decreases n - j,
        {
            let off_us: usize = self.storage.len();
            proof {
                assert(j as int * bs + bs <= n as int * bs) by (nonlinear_arith)
                    requires
                        j < n,
                        bs > 0,
                ;
                assert(j as int * bs + bs <= usize::MAX);
                assert((j - reused) as int * bs <= j as int * bs && 0 <= (j - reused) as int * bs)
                    by (nonlinear_arith)
                    requires
                        0 <= reused <= j,
                        bs > 0,
                ;
                assert(off_us as int + cs as int <= usize::MAX);
            }
            let ghost before = self.storage@;
            let ghost aold = assigned@;
            append_block(&mut self.storage, &value, j, cs);
            assigned.push(off_us as u64);
            proof {
                let f_old = Seq::new(
                    (j - reused) as nat,
                    |i: int| (pre.storage@.len() + i * bs) as u64,
                );
                let f_new = Seq::new(
                    (j + 1 - reused) as nat,
                    |i: int| (pre.storage@.len() + i * bs) as u64,
                );
                assert(off_us as int == pre.storage@.len() + (j - reused) as int * bs);
                assert((j + 1 - reused) as int * bs == (j - reused) as int * bs + bs)
                    by (nonlinear_arith)
                    requires
                        reused <= j,
                ;
                assert(f_new =~= f_old.push(off_us as u64));
                assert(pre.drop_blocks@.take(rr) + f_new =~= (pre.drop_blocks@.take(rr)
                    + f_old).push(off_us as u64));
                assert(off_us as int % bs == 0) by {
                    vstd::arithmetic::div_mod::lemma_mod_multiples_vanish(
                        (j - reused) as int,
                        pre.storage@.len() as int,
                        bs,
                    );
                }
                let na = assigned@;
                assert(na =~= aold.push(off_us as u64));
                assert(self.storage@ == before + chunk_seq(value@, cs as int, j as int));
                assert(offsets_in(na, bs, self.storage@.len() as int)) by {
                    assert forall|x: int| 0 <= x < na.len() implies (#[trigger] na[x]) as int % bs
                        == 0 && na[x] as int + bs <= self.storage@.len() as int by {
                        if x < j as int {
                            assert(na[x] == aold[x]);
                            assert((aold[x]) as int % bs == 0 && aold[x] as int + bs
                                <= before.len());
                        }
                    }
                }
                assert(distinct(na)) by {
                    assert forall|x: int, y: int| 0 <= x < y < na.len() implies na[x] != na[y] by {
                        if y == j as int {
                            assert(na[x] == aold[x]);
                            assert((aold[x]) as int + bs <= before.len());
                            assert(na[y] as int == before.len());
                        } else {
                            assert(na[x] == aold[x] && na[y] == aold[y]);
                        }
                    }
                }
                assert forall|jj: int, t: int| 0 <= jj < j + 1 && 0 <= t < bs implies self.storage@[
                    na[jj] as int + t] == #[trigger] chunk_byte(value@, bs, jj, t) by {
                    if jj == j as int {
                        assert(na[jj] as int == before.len());
                        assert(self.storage@[before.len() + t] == chunk_seq(
                            value@,
                            cs as int,
                            j as int,
                        )[t]);
                        assert(chunk_seq(value@, cs as int, j as int)[t] == chunk_byte(
                            value@,
                            cs as int,
                            j as int,
                            t,
                        ));
                    } else {
                        assert(na[jj] == aold[jj]);
                        assert((aold[jj]) as int + bs <= before.len());
                        assert(self.storage@[na[jj] as int + t] == before[na[jj] as int + t]);
                        assert(before[aold[jj] as int + t] == chunk_byte(value@, bs, jj, t));
                    }
                }
            }
            j += 1;
        }

        let count64: u64 = len as u64;
        let e = Index { count: count64, blocks: assigned };
        let ghost ee = e;
        let ghost mid = *self;
        self.put_entry(key, e);
        proof {
            let p: int = if pre.has_key(key@) {
                pre.key_pos(key@)
            } else {
                pre.indexs@.len() as int
            };
            assert(self.indexs@[p].0@ == key@ && self.indexs@[p].1 == ee);
            assert forall|i: int| 0 <= i < self.indexs@.len() && i != p implies (
            #[trigger] self.indexs@[i]) == pre.indexs@[i] && i < pre.indexs@.len() by {}
            lemma_insert_finish(pre, mid, *self, key@, value@, ee, p, rr, n as int);
        }
    }
}

/// Ties the loop-exit facts of `insert` together: with the new entry in the
/// index, the store is well formed again, its abstract map has gained the
/// key, and the entry's blocks hold exactly the padded split of the value.
#[verifier::rlimit(80)]
proof fn lemma_insert_finish(
    pre: Chunk,
    mid: Chunk,
    post: Chunk,
    key: Seq<char>,
    value: Seq<u8>,
    e: Index,
    p: int,
    r: int,
    n: int,
)
    requires
        pre.wf(),
        n == block_count(value.len() as int, pre.bs()),
        r == if n <= pre.drop_blocks@.len() as int {
            n
        } else {
            pre.drop_blocks@.len() as int
        },
        e.count as int == value.len() as int,
        e.blocks@ == pre.drop_blocks@.take(r) + Seq::new(
            (n - r) as nat,
            |i: int| (pre.storage@.len() + i * pre.bs()) as u64,
        ),
        e.blocks@.len() == n,
        offsets_in(e.blocks@, pre.bs(), mid.storage@.len() as int),
        distinct(e.blocks@),
        mid.chunk_size == pre.chunk_size,
        mid.indexs@ == pre.indexs@,
        mid.drop_blocks@ == pre.drop_blocks@.skip(r),
        mid.storage@.len() == pre.storage@.len() + (n - r) * pre.bs(),
        pre.storage@.len() + n * pre.bs() <= usize::MAX,
        forall|jj: int, t: int|
            0 <= jj < n && 0 <= t < pre.bs() ==> mid.storage@[e.blocks@[jj] as int + t]
                == #[trigger] chunk_byte(value, pre.bs(), jj, t),
        forall|i: int|
            0 <= i < pre.storage@.len() && !covered(pre.drop_blocks@.take(r), pre.bs(), i)
                ==> mid.storage@[i] == pre.storage@[i],
        post.chunk_size == mid.chunk_size,
        post.storage@ == mid.storage@,
        post.drop_blocks@ == mid.drop_blocks@,
        post.keys_unique(),
        post.has_key(key),
        post.entry_of(key) == e,
        0 <= p < post.indexs@.len(),
        post.indexs@[p].0@ == key,
        post.indexs@[p].1 == e,
        post.indexs@.len() == pre.indexs@.len() || (post.indexs@.len() == pre.indexs@.len() + 1
            && p == pre.indexs@.len() as int),
        forall|i: int|
            0 <= i < post.indexs@.len() && i != p ==> (#[trigger] post.indexs@[i])
                == pre.indexs@[i],
        forall|k2: Seq<char>| k2 != key ==> (post.has_key(k2) <==> pre.has_key(k2)),
        forall|k2: Seq<char>|
            k2 != key && pre.has_key(k2) ==> post.entry_of(k2) == pre.entry_of(k2),
    ensures
        insert_post(pre, post, key, value),
{
    let bs = pre.bs();
    lemma_padded_len_bounds(value.len() as int, bs);
    assert(r >= 0 && r <= n && r <= pre.drop_blocks@.len());
    assert((n - r) * bs >= 0) by (nonlinear_arith)
        requires
            0 <= r <= n,
            bs > 0,
    ;
    // Where each block of the new entry comes from.
    assert forall|x: int| 0 <= x < r implies e.blocks@[x] == pre.drop_blocks@[x] by {}
    assert forall|x: int| r <= x < n implies (#[trigger] e.blocks@[x]) as int == pre.storage@.len()
        + (x - r) * bs by {
        assert(0 <= (x - r) * bs <= n * bs && (x - r) * bs <= (n - r) * bs) by (nonlinear_arith)
            requires
                0 <= r <= x < n,
                bs > 0,
        ;
    }
    // The arena is still a whole number of blocks.
    assert(post.storage@.len() as int % bs == 0) by {
        vstd::arithmetic::div_mod::lemma_mod_multiples_basic(n - r, bs);
        vstd::arithmetic::div_mod::lemma_add_mod_noop(
            pre.storage@.len() as int,
            (n - r) * bs,
            bs,
        );
        vstd::arithmetic::div_mod::lemma_small_mod(0nat, bs as nat);
    }
    // The trimmed free list is still well formed.
    assert(offsets_in(post.drop_blocks@, bs, post.storage@.len() as int)) by {
        assert forall|y: int| 0 <= y < post.drop_blocks@.len() implies (
        #[trigger] post.drop_blocks@[y]) as int % bs == 0 && post.drop_blocks@[y] as int + bs
            <= post.storage@.len() as int by {
            assert(post.drop_blocks@[y] == pre.drop_blocks@[r + y]);
        }
    }
    assert(distinct(post.drop_blocks@)) by {
        assert forall|x: int, y: int| 0 <= x < y < post.drop_blocks@.len() implies post.drop_blocks@[x]
            != post.drop_blocks@[y] by {
            assert(post.drop_blocks@[x] == pre.drop_blocks@[r + x]);
            assert(post.drop_blocks@[y] == pre.drop_blocks@[r + y]);
        }
    }
    // Every entry is well formed: the new one by construction, the old ones
    // because the arena only grew.
    assert forall|i: int| 0 <= i < post.indexs@.len() implies post.entry_wf(
        (#[trigger] post.indexs@[i]).1,
    ) by {
        if i == p {
            assert(e.count as int <= bs * e.blocks@.len()) by (nonlinear_arith)
                requires
                    e.count as int <= n * bs,
                    e.blocks@.len() == n,
                    bs > 0,
            ;
        } else {
            assert(i < pre.indexs@.len());
            assert(post.indexs@[i] == pre.indexs@[i]);
            let ei = pre.indexs@[i].1;
            assert(pre.entry_wf(ei));
            assert forall|y: int| 0 <= y < ei.blocks@.len() implies (#[trigger] ei.blocks@[y]) as int
                % bs == 0 && ei.blocks@[y] as int + bs <= post.storage@.len() as int by {}
        }
    }
    // No live block stands in the free list.
    assert forall|i: int| 0 <= i < post.indexs@.len() implies entry_avoids(
        (#[trigger] post.indexs@[i]).1,
        post.drop_blocks@,
    ) by {
        let ei = post.indexs@[i].1;
        assert forall|x: int, y: int|
            0 <= x < ei.blocks@.len() && 0 <= y < post.drop_blocks@.len() implies ei.blocks@[x]
            != post.drop_blocks@[y] by {
            assert(post.drop_blocks@[y] == pre.drop_blocks@[r + y]);
            if i == p {
                if x < r {
                    assert(e.blocks@[x] == pre.drop_blocks@[x]);
                    assert(pre.drop_blocks@[x] != pre.drop_blocks@[r + y]);
                } else {
                    assert((x - r) * bs >= 0) by (nonlinear_arith)
                        requires
                            x >= r,
                            bs > 0,
                    ;
                    assert(pre.drop_blocks@[r + y] as int + bs <= pre.storage@.len());
                }
            } else {
                assert(i < pre.indexs@.len());
                assert(post.indexs@[i] == pre.indexs@[i]);
                assert(entry_avoids(pre.indexs@[i].1, pre.drop_blocks@));
            }
        }
    }
    // No block is shared by two keys.
    assert forall|i: int, j: int|
        0 <= i < post.indexs@.len() && 0 <= j < post.indexs@.len() && i != j implies entries_disjoint(
        (#[trigger] post.indexs@[i]).1,
        (#[trigger] post.indexs@[j]).1,
    ) by {
        if i != p && j != p {
            assert(i < pre.indexs@.len() && j < pre.indexs@.len());
            assert(post.indexs@[i] == pre.indexs@[i]);
            assert(post.indexs@[j] == pre.indexs@[j]);
            assert(entries_disjoint(pre.indexs@[i].1, pre.indexs@[j].1));
        } else {
            let q = if i == p {
                j
            } else {
                i
            };
            assert(q < pre.indexs@.len());
            assert(post.indexs@[q] == pre.indexs@[q]);
            let eo = pre.indexs@[q].1;
            assert(pre.entry_wf(eo));
            assert(entry_avoids(eo, pre.drop_blocks@));
            assert forall|x: int, y: int|
                0 <= x < e.blocks@.len() && 0 <= y < eo.blocks@.len() implies e.blocks@[x]
                != eo.blocks@[y] by {
                assert((eo.blocks@[y]) as int + bs <= pre.storage@.len());
                if x < r {
                    assert(e.blocks@[x] == pre.drop_blocks@[x]);
                    assert(eo.blocks@[y] != pre.drop_blocks@[x]);
                } else {
                    assert((x - r) * bs >= 0) by (nonlinear_arith)
                        requires
                            x >= r,
                            bs > 0,
                    ;
                }
            }
            assert(entries_disjoint(e, eo));
            assert(entries_disjoint(eo, e));
        }
    }
    assert(post.wf());
    // The new entry's blocks hold exactly the padded split of the value.
    lemma_gather_eq_padded(post.storage@, e.blocks@, value, bs);
    assert(gather(post.storage@, e.blocks@, bs) == padded_bytes(value, bs));
    assert(post.entry_bytes(e) == padded_bytes(value, bs).take(value.len() as int));
    assert(padded_bytes(value, bs).take(value.len() as int) =~= value);
    // Every other key keeps its bytes: its blocks avoid both the consumed
    // free blocks and the appended region.
    assert forall|k2: Seq<char>| k2 != key && pre.has_key(k2) implies post.entry_bytes(
        post.entry_of(k2),
    ) == pre.entry_bytes(pre.entry_of(k2)) by {
        let eo = pre.entry_of(k2);
        let w = pre.key_pos(k2);
        assert(0 <= w < pre.indexs@.len() && pre.indexs@[w].0@ == k2);
        assert(pre.entry_wf(eo));
        assert(entry_avoids(eo, pre.drop_blocks@));
        assert forall|i: int|
            0 <= i < pre.storage@.len() && covered(eo.blocks@, bs, i) implies pre.storage@[i]
            == post.storage@[i] by {
            let x = choose|x: int|
                0 <= x < eo.blocks@.len() && (#[trigger] eo.blocks@[x]) as int <= i
                    < eo.blocks@[x] as int + bs;
            assert(!covered(pre.drop_blocks@.take(r), bs, i)) by {
                if covered(pre.drop_blocks@.take(r), bs, i) {
                    let y = choose|y: int|
                        0 <= y < pre.drop_blocks@.take(r).len() && (#[trigger] pre.drop_blocks@.take(
                            r,
                        )[y]) as int <= i < pre.drop_blocks@.take(r)[y] as int + bs;
                    let o1 = eo.blocks@[x] as int;
                    let o2 = pre.drop_blocks@[y] as int;
                    assert(eo.blocks@[x] != pre.drop_blocks@[y]);
                    lemma_aligned_disjoint(o1, o2, bs);
                }
            }
        }
        lemma_gather_stable(pre.storage@, post.storage@, eo.blocks@, bs);
    }
    assert(post@ =~= pre@.insert(key, value)) by {
        assert forall|k2: Seq<char>| #[trigger] post@.contains_key(k2) implies pre@.insert(
            key,
            value,
        ).contains_key(k2) && post@[k2] == pre@.insert(key, value)[k2] by {
            if k2 == key {
                assert(post@[k2] == post.entry_bytes(e));
            } else {
                assert(pre.has_key(k2));
                assert(post@[k2] == post.entry_bytes(post.entry_of(k2)));
                assert(pre@[k2] == pre.entry_bytes(pre.entry_of(k2)));
            }
        }
        assert forall|k2: Seq<char>| pre@.insert(key, value).contains_key(k2) implies post@.contains_key(
            k2,
        ) by {}
    }
}

/// Everything `remove` promises: the result tells whether the key was live,
/// the arena is untouched, a removed entry's blocks are appended to the free
/// list in order, and every other key keeps its entry and its value.
pub open spec fn remove_post(pre: Chunk, post: Chunk, key: Seq<char>, removed: bool) -> bool {
    &&& removed == pre.has_key(key)
    &&& post.wf()
    &&& post.chunk_size == pre.chunk_size
    &&& post.storage@ == pre.storage@
    &&& !post.has_key(key)
    &&& post@ == (if removed {
        pre@.remove(key)
    } else {
        pre@
    })
    &&& (removed ==> post.drop_blocks@ == pre.drop_blocks@ + pre.entry_of(key).blocks@)
    &&& (!removed ==> post.drop_blocks@ == pre.drop_blocks@ && post.indexs@ == pre.indexs@)
    &&& forall|k2: Seq<char>| k2 != key ==> (post.has_key(k2) <==> pre.has_key(k2))
    &&& forall|k2: Seq<char>|
        k2 != key && pre.has_key(k2) ==> post.entry_of(k2) == pre.entry_of(k2)
}

impl Chunk {
    /// Removes `key` from the store.  Returns whether it was present; if so,
    /// its blocks are appended to the free list, in entry order, and its
    /// bytes in the arena are left untouched until reused.
    #[verifier::loop_isolation(false)]
    pub fn remove(&mut self, key: String) -> (r: bool)
        requires
            old(self).wf(),
        ensures
            remove_post(*old(self), *final(self), key@, r),
    {
        let found = self.find_key(&key);
        match found {
            None => {
                proof {
                    assert(self@ =~= old(self)@);
                }
                false
            },
            Some(p) => {
                let ghost pre = *old(self);
                let ghost e = pre.indexs@[p as int].1;
                let num = self.indexs[p].1.blocks.len();
                proof {
                    assert(pre.entry_wf(e));
                    assert(entry_avoids(e, pre.drop_blocks@));
                    assert(pre.entry_of(key@) == e);
                }
                let mut ii: usize = 0;
                while ii < num
                    invariant
                        ii <= num,
                        self.chunk_size == pre.chunk_size,
                        self.storage@ == pre.storage@,
                        self.indexs@ == pre.indexs@,
                        self.drop_blocks@ == pre.drop_blocks@ + e.blocks@.take(ii as int),
                    decreases num - ii,
                {
                    let off = self.indexs[p].1.blocks[ii];
                    self.drop_blocks.push(off);
                    proof {
                        assert(pre.drop_blocks@ + e.blocks@.take(ii as int + 1) =~= (
                        pre.drop_blocks@ + e.blocks@.take(ii as int)).push(off));
                    }
                    ii += 1;
                }
                proof {
                    assert(e.blocks@.take(num as int) =~= e.blocks@);
                }
                self.indexs.remove(p);
                proof {
                    lemma_after_removal(pre, *self, key@, p as int);
                }
                true
            },
        }
    }
}

/// After the entry at position `p` (the one carrying `key`) leaves the index
/// and its blocks join the free list, the store is well formed again and its
/// abstract map has lost exactly that key.
proof fn lemma_after_removal(pre: Chunk, post: Chunk, key: Seq<char>, p: int)
    requires
        pre.wf(),
        0 <= p < pre.indexs@.len(),
        pre.indexs@[p].0@ == key,
        post.chunk_size == pre.chunk_size,
        post.storage@ == pre.storage@,
        post.drop_blocks@ == pre.drop_blocks@ + pre.indexs@[p].1.blocks@,
        post.indexs@ == pre.indexs@.remove(p),
    ensures
        post.wf(),
        !post.has_key(key),
        post@ == pre@.remove(key),
        forall|k2: Seq<char>| k2 != key ==> (post.has_key(k2) <==> pre.has_key(k2)),
        forall|k2: Seq<char>|
            k2 != key && pre.has_key(k2) ==> post.entry_of(k2) == pre.entry_of(k2),
{
    let e = pre.indexs@[p].1;
    let dl = pre.drop_blocks@.len() as int;
    // Each surviving entry is an old entry at a shifted position.
    assert(post.indexs@.len() == pre.indexs@.len() - 1);
    assert forall|i: int| 0 <= i < post.indexs@.len() implies post.indexs@[i] == pre.indexs@[
        spec_shift(i, p)
    ] && 0 <= spec_shift(i, p) < pre.indexs@.len() && spec_shift(i, p) != p by {}
    // Well-formedness of the new free list.
    assert(offsets_in(post.drop_blocks@, post.bs(), post.storage@.len() as int)) by {
        assert(pre.entry_wf(e));
        assert forall|j: int| 0 <= j < post.drop_blocks@.len() implies (
        #[trigger] post.drop_blocks@[j]) as int % post.bs() == 0 && post.drop_blocks@[j] as int
            + post.bs() <= post.storage@.len() as int by {
            if j < dl {
                assert(post.drop_blocks@[j] == pre.drop_blocks@[j]);
            } else {
                assert(post.drop_blocks@[j] == e.blocks@[j - dl]);
            }
        }
    }
    assert(distinct(post.drop_blocks@)) by {
        assert(pre.entry_wf(e));
        assert(entry_avoids(e, pre.drop_blocks@));
        assert forall|i: int, j: int| 0 <= i < j < post.drop_blocks@.len() implies post.drop_blocks@[i]
            != post.drop_blocks@[j] by {
            if i < dl && j >= dl {
                assert(e.blocks@[j - dl] != pre.drop_blocks@[i]);
            }
        }
    }
    // Well-formedness of the surviving entries.
    assert(post.keys_unique()) by {
        assert forall|i: int, j: int| 0 <= i < j < post.indexs@.len() implies post.indexs@[i].0@
            != post.indexs@[j].0@ by {
            assert(pre.indexs@[spec_shift(i, p)].0@ != pre.indexs@[spec_shift(j, p)].0@);
        }
    }
    assert forall|i: int| 0 <= i < post.indexs@.len() implies post.entry_wf(
        (#[trigger] post.indexs@[i]).1,
    ) by {
        assert(pre.entry_wf(pre.indexs@[spec_shift(i, p)].1));
    }
    assert forall|i: int| 0 <= i < post.indexs@.len() implies entry_avoids(
        (#[trigger] post.indexs@[i]).1,
        post.drop_blocks@,
    ) by {
        let i0 = spec_shift(i, p);
        let ei = pre.indexs@[i0].1;
        assert(entry_avoids(ei, pre.drop_blocks@));
        assert(entries_disjoint(ei, e));
        assert forall|x: int, y: int|
            0 <= x < ei.blocks@.len() && 0 <= y < post.drop_blocks@.len() implies ei.blocks@[x]
            != post.drop_blocks@[y] by {
            if y >= dl {
                assert(post.drop_blocks@[y] == e.blocks@[y - dl]);
            }
        }
    }
    assert forall|i: int, j: int|
        0 <= i < post.indexs@.len() && 0 <= j < post.indexs@.len() && i != j implies entries_disjoint(
        (#[trigger] post.indexs@[i]).1,
        (#[trigger] post.indexs@[j]).1,
    ) by {
        assert(entries_disjoint(pre.indexs@[spec_shift(i, p)].1, pre.indexs@[spec_shift(j, p)].1));
    }
    // The key is gone; every other key keeps its entry.
    assert(!post.has_key(key)) by {
        if post.has_key(key) {
            let w = choose|i: int|
                0 <= i < post.indexs@.len() && (#[trigger] post.indexs@[i]).0@ == key;
            let w0 = spec_shift(w, p);
            if w0 < p {
                assert(pre.indexs@[w0].0@ != pre.indexs@[p].0@);
            } else {
                assert(pre.indexs@[p].0@ != pre.indexs@[w0].0@);
            }
        }
    }
    assert forall|k2: Seq<char>| k2 != key implies (post.has_key(k2) <==> pre.has_key(k2)) by {
        if post.has_key(k2) {
            let w = choose|i: int|
                0 <= i < post.indexs@.len() && (#[trigger] post.indexs@[i]).0@ == k2;
            assert(pre.indexs@[spec_shift(w, p)].0@ == k2);
        }
        if pre.has_key(k2) {
            let w = choose|i: int|
                0 <= i < pre.indexs@.len() && (#[trigger] pre.indexs@[i]).0@ == k2;
            assert(w != p);
            if w < p {
                assert(post.indexs@[w].0@ == k2);
            } else {
                assert(post.indexs@[w - 1].0@ == k2);
            }
        }
    }
    assert forall|k2: Seq<char>| k2 != key && pre.has_key(k2) implies post.entry_of(k2)
        == pre.entry_of(k2) by {
        lemma_lookup_match(pre, post, k2, p);
    }
    assert(post@ =~= pre@.remove(key));
}

/// The old position of the entry that stands at position `i` after the entry
/// at `p` was removed.
pub open spec fn spec_shift(i: int, p: int) -> int {
    if i < p {
        i
    } else {
        i + 1
    }
}

/// For a key other than the removed one, lookup lands on the same entry
/// before and after the removal.
proof fn lemma_lookup_match(pre: Chunk, post: Chunk, k2: Seq<char>, p: int)
    requires
        pre.wf(),
        0 <= p < pre.indexs@.len(),
        post.indexs@ == pre.indexs@.remove(p),
        pre.has_key(k2),
        k2 != pre.indexs@[p].0@,
        post.keys_unique(),
        forall|k: Seq<char>| k != pre.indexs@[p].0@ ==> (post.has_key(k) <==> pre.has_key(k)),
    ensures
        post.has_key(k2),
        post.entry_of(k2) == pre.entry_of(k2),
{
    let w = pre.key_pos(k2);
    assert(0 <= w < pre.indexs@.len() && pre.indexs@[w].0@ == k2);
    assert(w != p);
    let w2 = if w < p {
        w
    } else {
        w - 1
    };
    assert(post.indexs@[w2] == pre.indexs@[w]);
    assert(post.has_key(k2));
    let v = post.key_pos(k2);
    assert(0 <= v < post.indexs@.len() && post.indexs@[v].0@ == k2);
    if v != w2 {
        if v < w2 {
            assert(post.indexs@[v].0@ != post.indexs@[w2].0@);
        } else {
            assert(post.indexs@[w2].0@ != post.indexs@[v].0@);
        }
    }
}

impl View for Chunk {
    type V = Map<Seq<char>, Seq<u8>>;

    /// The store seen abstractly: the map from each live key to the byte
    /// sequence its entry reconstructs.
    open spec fn view(&self) -> Map<Seq<char>, Seq<u8>> {
        Map::new(|k: Seq<char>| self.has_key(k), |k: Seq<char>| self.entry_bytes(self.entry_of(k)))
    }
}

} // verus!
