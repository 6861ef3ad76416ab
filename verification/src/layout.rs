//! The mathematical model of the block layout: how a byte sequence is split
//! into fixed-size zero-padded blocks, and how the bytes stored at a list of
//! block offsets are gathered back together.

use vstd::arithmetic::div_mod::lemma_div_pos_is_pos;
use vstd::arithmetic::div_mod::lemma_fundamental_div_mod;
use vstd::arithmetic::div_mod::lemma_mod_bound;
use vstd::arithmetic::div_mod::lemma_mod_multiples_basic;
use vstd::arithmetic::div_mod::lemma_small_mod;
use vstd::arithmetic::div_mod::lemma_sub_mod_noop;
use vstd::prelude::*;

verus! {

broadcast use vstd::arithmetic::mul::lemma_mul_is_commutative;

/// How many blocks of `bs` bytes are needed to hold `len` bytes;
/// the last block may be only partly filled.
pub open spec fn block_count(len: int, bs: int) -> int
    recommends
        0 <= len,
        0 < bs,
{
    if len % bs == 0 {
        len / bs
    } else {
        len / bs + 1
    }
}

/// Total number of bytes occupied by the blocks that hold `len` bytes.
pub open spec fn padded_len(len: int, bs: int) -> int {
    block_count(len, bs) * bs
}

/// `value` extended on the right with zero bytes up to a whole number of blocks.
pub open spec fn padded_bytes(value: Seq<u8>, bs: int) -> Seq<u8>
    recommends
        0 < bs,
{
    Seq::new(
        padded_len(value.len() as int, bs) as nat,
        |i: int| if i < value.len() { value[i] } else { 0u8 },
    )
}

/// Byte `t` of block `j` of the split of `value` into `bs`-byte blocks.
pub open spec fn chunk_byte(value: Seq<u8>, bs: int, j: int, t: int) -> u8 {
    if j * bs + t < value.len() {
        value[j * bs + t]
    } else {
        0u8
    }
}

/// Block `j` of the split of `value` into `bs`-byte blocks, zero-padded.
pub open spec fn chunk_seq(value: Seq<u8>, bs: int, j: int) -> Seq<u8>
    recommends
        0 < bs,
{
    Seq::new(bs as nat, |t: int| chunk_byte(value, bs, j, t))
}

/// The `bs` bytes of `arena` starting at `off`; empty if the window would
/// run past the end of the arena.
pub open spec fn block_at(arena: Seq<u8>, off: int, bs: int) -> Seq<u8> {
    if 0 <= off && 0 <= bs && off + bs <= arena.len() {
        arena.subrange(off, off + bs)
    } else {
        Seq::empty()
    }
}

/// Concatenation of the blocks of `arena` at the given offsets, in order.
pub open spec fn gather(arena: Seq<u8>, offs: Seq<u64>, bs: int) -> Seq<u8>
    decreases offs.len(),
{
    if offs.len() == 0 {
        Seq::empty()
    } else {
        gather(arena, offs.drop_last(), bs) + block_at(arena, offs.last() as int, bs)
    }
}

/// Position `i` of the arena lies inside one of the blocks at `offs`.
pub open spec fn covered(offs: Seq<u64>, bs: int, i: int) -> bool {
    exists|j: int|
        0 <= j < offs.len() && (#[trigger] offs[j]) as int <= i < offs[j] as int + bs
}

/// No offset occurs twice.
pub open spec fn distinct(offs: Seq<u64>) -> bool {
    forall|i: int, j: int| 0 <= i < j < offs.len() ==> offs[i] != offs[j]
}

/// Every offset is block-aligned and its whole block lies inside an arena of
/// length `alen`.
pub open spec fn offsets_in(offs: Seq<u64>, bs: int, alen: int) -> bool {
    forall|j: int|
        0 <= j < offs.len() ==> (#[trigger] offs[j]) as int % bs == 0 && offs[j] as int + bs
            <= alen
}

/// Basic bounds on the padded length: it covers the value, overshoots by less
/// than one block, and is itself a whole number of blocks.
pub proof fn lemma_padded_len_bounds(len: int, bs: int)
    requires
        0 <= len,
        0 < bs,
    ensures
        len <= padded_len(len, bs) < len + bs,
        0 <= block_count(len, bs),
        len == 0 <==> block_count(len, bs) == 0,
        padded_len(len, bs) % bs == 0,
{
    lemma_fundamental_div_mod(len, bs);
    lemma_mod_bound(len, bs);
    lemma_div_pos_is_pos(len, bs);
    let q = len / bs;
    let r = len % bs;
    if r == 0 {
        lemma_mod_multiples_basic(q, bs);
        assert(padded_len(len, bs) == len);
    } else {
        lemma_mod_multiples_basic(q + 1, bs);
        assert((q + 1) * bs == q * bs + bs) by (nonlinear_arith);
        assert(padded_len(len, bs) == len + (bs - r));
    }
    if len == 0 {
        assert(len % bs == 0) by {
            lemma_small_mod(0nat, bs as nat);
        }
        assert(len / bs == 0) by {
            vstd::arithmetic::div_mod::lemma_basic_div(len, bs);
        }
    }
    if len > 0 && r == 0 {
        assert(q > 0) by (nonlinear_arith)
            requires
                q * bs + r == len,
                r == 0,
                len > 0,
                bs > 0,
                q >= 0,
        ;
    }
}

/// Any index below `n * bs` splits uniquely into a block number below `n`
/// and an offset within the block.
pub proof fn lemma_div_range(i: int, n: int, bs: int)
    requires
        0 <= i < n * bs,
        0 < bs,
    ensures
        0 <= i / bs < n,
        0 <= i % bs < bs,
        i == (i / bs) * bs + i % bs,
{
    lemma_fundamental_div_mod(i, bs);
    lemma_mod_bound(i, bs);
    lemma_div_pos_is_pos(i, bs);
    assert(i / bs < n) by (nonlinear_arith)
        requires
            i == bs * (i / bs) + i % bs,
            0 <= i % bs < bs,
            i < n * bs,
            0 < bs,
            0 <= i / bs,
    ;
}

/// Gathering `k` whole blocks yields `k * bs` bytes.
pub proof fn lemma_gather_len(arena: Seq<u8>, offs: Seq<u64>, bs: int)
    requires
        0 < bs,
        offsets_in(offs, bs, arena.len() as int),
    ensures
        gather(arena, offs, bs).len() == offs.len() * bs,
    decreases offs.len(),
{
    if offs.len() == 0 {
    } else {
        assert(offsets_in(offs.drop_last(), bs, arena.len() as int));
        lemma_gather_len(arena, offs.drop_last(), bs);
        assert(block_at(arena, offs.last() as int, bs).len() == bs);
        assert(offs.len() * bs == (offs.len() - 1) * bs + bs) by (nonlinear_arith);
    }
}

/// Byte `t` of block `j` of a gather is the byte at offset `offs[j] + t`
/// of the arena.
pub proof fn lemma_gather_index(arena: Seq<u8>, offs: Seq<u64>, bs: int, j: int, t: int)
    requires
        0 < bs,
        offsets_in(offs, bs, arena.len() as int),
        0 <= j < offs.len(),
        0 <= t < bs,
    ensures
        gather(arena, offs, bs)[j * bs + t] == arena[offs[j] as int + t],
    decreases offs.len(),
{
    lemma_gather_len(arena, offs.drop_last(), bs);
    assert(offsets_in(offs.drop_last(), bs, arena.len() as int));
    if j == offs.len() - 1 {
        assert(j * bs + t - (offs.len() - 1) * bs == t);
        assert(block_at(arena, offs.last() as int, bs)[t] == arena[offs[j] as int + t]);
    } else {
        lemma_gather_index(arena, offs.drop_last(), bs, j, t);
        assert(j * bs + t < (offs.len() - 1) * bs) by (nonlinear_arith)
            requires
                0 <= j < offs.len() - 1,
                0 <= t < bs,
                0 < bs,
        ;
    }
}

/// If the blocks at `offs` hold exactly the blocks of the split of `value`,
/// gathering them yields the padded form of `value`.
pub proof fn lemma_gather_eq_padded(arena: Seq<u8>, offs: Seq<u64>, value: Seq<u8>, bs: int)
    requires
        0 < bs,
        offsets_in(offs, bs, arena.len() as int),
        offs.len() == block_count(value.len() as int, bs),
        forall|j: int, t: int|
            0 <= j < offs.len() && 0 <= t < bs ==> arena[offs[j] as int + t] == #[trigger] chunk_byte(
                value,
                bs,
                j,
                t,
            ),
    ensures
        gather(arena, offs, bs) == padded_bytes(value, bs),
{
    lemma_gather_len(arena, offs, bs);
    lemma_padded_len_bounds(value.len() as int, bs);
    let g = gather(arena, offs, bs);
    let p = padded_bytes(value, bs);
    assert(g.len() == p.len());
    assert forall|i: int| 0 <= i < g.len() implies g[i] == p[i] by {
        lemma_div_range(i, offs.len() as int, bs);
        let j = i / bs;
        let t = i % bs;
        lemma_gather_index(arena, offs, bs, j, t);
        assert(arena[offs[j] as int + t] == chunk_byte(value, bs, j, t));
    }
    assert(g =~= p);
}

/// Gathering depends only on the bytes the blocks cover: if a (possibly
/// longer) arena agrees with the old one on every covered position, the
/// gathered bytes are unchanged.
pub proof fn lemma_gather_stable(a1: Seq<u8>, a2: Seq<u8>, offs: Seq<u64>, bs: int)
    requires
        0 < bs,
        offsets_in(offs, bs, a1.len() as int),
        a1.len() <= a2.len(),
        forall|i: int| 0 <= i < a1.len() && covered(offs, bs, i) ==> a1[i] == a2[i],
    ensures
        gather(a1, offs, bs) == gather(a2, offs, bs),
{
    assert(offsets_in(offs, bs, a2.len() as int));
    lemma_gather_len(a1, offs, bs);
    lemma_gather_len(a2, offs, bs);
    let g1 = gather(a1, offs, bs);
    let g2 = gather(a2, offs, bs);
    assert forall|i: int| 0 <= i < g1.len() implies g1[i] == g2[i] by {
        lemma_div_range(i, offs.len() as int, bs);
        let j = i / bs;
        let t = i % bs;
        lemma_gather_index(a1, offs, bs, j, t);
        lemma_gather_index(a2, offs, bs, j, t);
        assert(covered(offs, bs, offs[j] as int + t));
    }
    assert(g1 =~= g2);
}

/// Two distinct block-aligned offsets start blocks that do not overlap.
pub proof fn lemma_aligned_disjoint(o1: int, o2: int, bs: int)
    requires
        0 < bs,
        0 <= o1,
        0 <= o2,
        o1 % bs == 0,
        o2 % bs == 0,
        o1 != o2,
    ensures
        o1 + bs <= o2 || o2 + bs <= o1,
{
    if o1 < o2 {
        lemma_aligned_gap(o1, o2, bs);
    } else {
        lemma_aligned_gap(o2, o1, bs);
    }
}

proof fn lemma_aligned_gap(lo: int, hi: int, bs: int)
    requires
        0 < bs,
        0 <= lo < hi,
        lo % bs == 0,
        hi % bs == 0,
    ensures
        lo + bs <= hi,
{
    let d = hi - lo;
    lemma_sub_mod_noop(hi, lo, bs);
    assert(d % bs == 0) by {
        lemma_small_mod(0nat, bs as nat);
    }
    if d < bs {
        lemma_small_mod(d as nat, bs as nat);
    }
}

} // verus!
