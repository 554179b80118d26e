//! Free/used bitmaps: one bit per allocatable unit, packed as little-endian
//! 64-bit words into blocks, 4096 bits to a block.
use vstd::prelude::*;

use crate::block_cache::{overwrite, BlockCacheManager};
use crate::block_dev::BlockDevice;
use crate::BLOCK_SZ;

verus! {

broadcast use vstd::std_specs::bits::axiom_u64_trailing_ones;

/// Bits held by one bitmap block.
pub const BLOCK_BITS: usize = 4096;

/// The u64 stored little-endian in the eight bytes of `s` from `at` on.
pub open spec fn le_u64(s: Seq<u8>, at: int) -> u64 {
    (s[at] as u64) | ((s[at + 1] as u64) << 8u64) | ((s[at + 2] as u64) << 16u64) | ((s[at
        + 3] as u64) << 24u64) | ((s[at + 4] as u64) << 32u64) | ((s[at + 5] as u64) << 40u64)
        | ((s[at + 6] as u64) << 48u64) | ((s[at + 7] as u64) << 56u64)
}

/// The eight little-endian bytes of `w`.
pub open spec fn u64_bytes(w: u64) -> Seq<u8> {
    seq![
        (w & 0xff) as u8,
        ((w >> 8u64) & 0xff) as u8,
        ((w >> 16u64) & 0xff) as u8,
        ((w >> 24u64) & 0xff) as u8,
        ((w >> 32u64) & 0xff) as u8,
        ((w >> 40u64) & 0xff) as u8,
        ((w >> 48u64) & 0xff) as u8,
        ((w >> 56u64) & 0xff) as u8,
    ]
}

proof fn lemma_u64_round_trip(w: u64)
    ensures
        le_u64(u64_bytes(w), 0) == w,
{
    let s = u64_bytes(w);
    let b0 = s[0];
    let b1 = s[1];
    let b2 = s[2];
    let b3 = s[3];
    let b4 = s[4];
    let b5 = s[5];
    let b6 = s[6];
    let b7 = s[7];
    assert(b0 == (w & 0xff) as u8 && b1 == ((w >> 8u64) & 0xff) as u8 && b2 == ((w >> 16u64)
        & 0xff) as u8 && b3 == ((w >> 24u64) & 0xff) as u8 && b4 == ((w >> 32u64) & 0xff) as u8
        && b5 == ((w >> 40u64) & 0xff) as u8 && b6 == ((w >> 48u64) & 0xff) as u8 && b7 == ((w
        >> 56u64) & 0xff) as u8);
    assert((b0 == (w & 0xff) as u8 && b1 == ((w >> 8u64) & 0xff) as u8 && b2 == ((w >> 16u64)
        & 0xff) as u8 && b3 == ((w >> 24u64) & 0xff) as u8 && b4 == ((w >> 32u64) & 0xff) as u8
        && b5 == ((w >> 40u64) & 0xff) as u8 && b6 == ((w >> 48u64) & 0xff) as u8 && b7 == ((w
        >> 56u64) & 0xff) as u8) ==> (b0 as u64) | ((b1 as u64) << 8u64) | ((b2 as u64) << 16u64)
        | ((b3 as u64) << 24u64) | ((b4 as u64) << 32u64) | ((b5 as u64) << 40u64) | ((b6 as u64)
        << 48u64) | ((b7 as u64) << 56u64) == w) by (bit_vector);
}

proof fn lemma_bit_or(w: u64, j: u64, k: u64)
    requires
        j < 64,
        k < 64,
    ensures
        ((w | (1u64 << j)) >> k) & 1 == if k == j {
            1
        } else {
            (w >> k) & 1
        },
{
    assert(k == j ==> ((w | (1u64 << j)) >> k) & 1 == 1) by (bit_vector)
        requires
            j < 64,
            k < 64,
    ;
    assert(k != j ==> ((w | (1u64 << j)) >> k) & 1 == (w >> k) & 1) by (bit_vector)
        requires
            j < 64,
            k < 64,
    ;
}

proof fn lemma_bit_clear(w: u64, j: u64, k: u64)
    requires
        j < 64,
        k < 64,
    ensures
        ((w & !(1u64 << j)) >> k) & 1 == if k == j {
            0
        } else {
            (w >> k) & 1
        },
{
    assert(k == j ==> ((w & !(1u64 << j)) >> k) & 1 == 0) by (bit_vector)
        requires
            j < 64,
            k < 64,
    ;
    assert(k != j ==> ((w & !(1u64 << j)) >> k) & 1 == (w >> k) & 1) by (bit_vector)
        requires
            j < 64,
            k < 64,
    ;
}

proof fn lemma_full_word(k: u64)
    requires
        k < 64,
    ensures
        (0xffff_ffff_ffff_ffffu64 >> k) & 1 == 1,
{
    assert((0xffff_ffff_ffff_ffffu64 >> k) & 1 == 1) by (bit_vector)
        requires
            k < 64,
    ;
}

/// The word of the bitmap at `start` that holds bit `i`.
pub open spec fn word_of(disk: Seq<Seq<u8>>, start: int, i: int) -> u64 {
    le_u64(disk[start + i / 4096], 8 * ((i % 4096) / 64))
}

/// Whether bit `i` of the bitmap whose first block is `start` is set.
pub open spec fn bit_set(disk: Seq<Seq<u8>>, start: int, i: int) -> bool {
    (word_of(disk, start, i) >> ((i % 64) as u64)) & 1 == 1
}

/// The set bits of a bitmap of `blocks` blocks from `start` on.
pub open spec fn allocated(disk: Seq<Seq<u8>>, start: int, blocks: int) -> Set<int> {
    Set::new(|i: int| 0 <= i < blocks * 4096 && bit_set(disk, start, i))
}

/// The three coordinates of a bit: block, word in the block, bit in the word.
proof fn lemma_coords(b: int, w: int, k: int)
    requires
        0 <= b,
        0 <= w < 64,
        0 <= k < 64,
    ensures
        (b * 4096 + w * 64 + k) / 4096 == b,
        ((b * 4096 + w * 64 + k) % 4096) / 64 == w,
        (b * 4096 + w * 64 + k) % 64 == k,
{
    let i = b * 4096 + w * 64 + k;
    vstd::arithmetic::div_mod::lemma_fundamental_div_mod_converse(i, 4096, b, w * 64 + k);
    vstd::arithmetic::div_mod::lemma_fundamental_div_mod_converse(w * 64 + k, 64, w, k);
    vstd::arithmetic::div_mod::lemma_fundamental_div_mod_converse(i, 64, b * 64 + w, k);
}

/// Splits a bit index into (block, word in block, bit in word).
pub(crate) fn decomposition(bit: usize) -> (r: (usize, usize, usize))
    ensures
        r.0 == bit / BLOCK_BITS,
        r.1 == (bit % BLOCK_BITS) / 64,
        r.2 == bit % 64,
        r.1 < 64,
        r.2 < 64,
{
    let block_pos = bit / BLOCK_BITS;
    let rest = bit % BLOCK_BITS;
    proof {
        vstd::arithmetic::div_mod::lemma_mod_mod(bit as int, 64, 64);
        vstd::arithmetic::div_mod::lemma_fundamental_div_mod(bit as int, 4096);
        vstd::arithmetic::div_mod::lemma_fundamental_div_mod(rest as int, 64);
        vstd::arithmetic::div_mod::lemma_fundamental_div_mod_converse(
            bit as int,
            64,
            (bit / 4096) as int * 64 + rest as int / 64,
            rest as int % 64,
        );
    }
    (block_pos, rest / 64, rest % 64)
}

pub(crate) fn get_u64(bytes: &[u8], at: usize) -> (r: u64)
    requires
        at + 8 <= bytes@.len(),
    ensures
        r == le_u64(bytes@, at as int),
{
    (bytes[at] as u64) | ((bytes[at + 1] as u64) << 8u64) | ((bytes[at + 2] as u64) << 16u64) | ((
    bytes[at + 3] as u64) << 24u64) | ((bytes[at + 4] as u64) << 32u64) | ((bytes[at + 5] as u64)
        << 40u64) | ((bytes[at + 6] as u64) << 48u64) | ((bytes[at + 7] as u64) << 56u64)
}

fn u64_to_bytes(w: u64) -> (r: Vec<u8>)
    ensures
        r@ == u64_bytes(w),
{
    let mut out: Vec<u8> = Vec::new();
    out.push((w & 0xff) as u8);
    out.push(((w >> 8u64) & 0xff) as u8);
    out.push(((w >> 16u64) & 0xff) as u8);
    out.push(((w >> 24u64) & 0xff) as u8);
    out.push(((w >> 32u64) & 0xff) as u8);
    out.push(((w >> 40u64) & 0xff) as u8);
    out.push(((w >> 48u64) & 0xff) as u8);
    out.push(((w >> 56u64) & 0xff) as u8);
    assert(out@ =~= u64_bytes(w));
    out
}

/// Writing word `nw` at word `wi` of bitmap block `blk` changes that word
/// and no other.
proof fn lemma_word_written(old_disk: Seq<Seq<u8>>, new_disk: Seq<Seq<u8>>, start: int, blk: int, wi: int, nw: u64, i: int)
    requires
        0 <= start,
        0 <= blk,
        0 <= wi < 64,
        start + blk < old_disk.len(),
        old_disk[start + blk].len() == BLOCK_SZ,
        new_disk == old_disk.update(
            start + blk,
            overwrite(old_disk[start + blk], 8 * wi, u64_bytes(nw)),
        ),
        0 <= i,
        start + i / 4096 < old_disk.len(),
    ensures
        (i / 4096 == blk && (i % 4096) / 64 == wi) ==> word_of(new_disk, start, i) == nw,
        !(i / 4096 == blk && (i % 4096) / 64 == wi) ==> word_of(new_disk, start, i) == word_of(
            old_disk,
            start,
            i,
        ),
{
    let wj = (i % 4096) / 64;
    assert(0 <= wj < 64) by {
        vstd::arithmetic::div_mod::lemma_mod_bound(i, 4096);
        vstd::arithmetic::div_mod::lemma_div_is_ordered(i % 4096, 4095, 64);
    }
    if i / 4096 == blk {
        let ob = old_disk[start + blk];
        let nb = new_disk[start + blk];
        if wj == wi {
            lemma_u64_round_trip(nw);
            let e = u64_bytes(nw);
            assert(nb[8 * wi] == e[0] && nb[8 * wi + 1] == e[1] && nb[8 * wi + 2] == e[2]
                && nb[8 * wi + 3] == e[3] && nb[8 * wi + 4] == e[4] && nb[8 * wi + 5] == e[5]
                && nb[8 * wi + 6] == e[6] && nb[8 * wi + 7] == e[7]);
        } else {
            assert(nb[8 * wj] == ob[8 * wj] && nb[8 * wj + 1] == ob[8 * wj + 1] && nb[8 * wj + 2]
                == ob[8 * wj + 2] && nb[8 * wj + 3] == ob[8 * wj + 3] && nb[8 * wj + 4] == ob[8 * wj
                + 4] && nb[8 * wj + 5] == ob[8 * wj + 5] && nb[8 * wj + 6] == ob[8 * wj + 6] && nb[8
                * wj + 7] == ob[8 * wj + 7]);
        }
    }
}

/// Setting the lowest clear bit of the first word that is not full: the
/// facts that `alloc_bit` promises.
proof fn lemma_alloc_found(
    d0: Seq<Seq<u8>>,
    d1: Seq<Seq<u8>>,
    start: int,
    len: int,
    block_id: int,
    w: int,
    word: u64,
    inner: int,
    new_word: u64,
)
    requires
        0 <= start,
        0 <= block_id < len,
        start + len <= d0.len(),
        forall|b: int| 0 <= b < d0.len() ==> (#[trigger] d0[b]).len() == BLOCK_SZ,
        0 <= w < 64,
        word == le_u64(d0[start + block_id], 8 * w),
        word != 0xffff_ffff_ffff_ffffu64,
        inner == word.trailing_ones(),
        new_word == word | (1u64 << (inner as u64)),
        d1 == d0.update(start + block_id, overwrite(d0[start + block_id], 8 * w, u64_bytes(new_word))),
        forall|i: int| 0 <= i < block_id * 4096 + w * 64 ==> #[trigger] bit_set(d0, start, i),
    ensures
        ({
            let bit = block_id * 4096 + w * 64 + inner;
            &&& 0 <= inner < 64
            &&& bit < len * 4096
            &&& bit / 4096 == block_id
            &&& !bit_set(d0, start, bit)
            &&& forall|i: int| 0 <= i < bit ==> #[trigger] bit_set(d0, start, i)
            &&& forall|i: int|
                0 <= i < len * 4096 ==> #[trigger] bit_set(d1, start, i) == (i == bit || bit_set(
                    d0,
                    start,
                    i,
                ))
            &&& allocated(d1, start, len) == allocated(d0, start, len).insert(bit)
            &&& forall|b: int| 0 <= b < d0.len() && b != start + bit / 4096 ==> #[trigger] d1[b] == d0[b]
        }),
{
    let bit = block_id * 4096 + w * 64 + inner;
    assert(0 <= inner < 64);
    lemma_coords(block_id, w, inner);
    assert(word_of(d0, start, bit) == word);
    assert(bit < len * 4096) by (nonlinear_arith)
        requires
            bit == block_id * 4096 + w * 64 + inner,
            block_id < len,
            w < 64,
            inner < 64,
    ;
    assert forall|i: int| 0 <= i < bit implies #[trigger] bit_set(d0, start, i) by {
        if i >= block_id * 4096 + w * 64 {
            let k = i - (block_id * 4096 + w * 64);
            lemma_coords(block_id, w, k);
            assert(word_of(d0, start, i) == word);
            assert((word >> (k as u64)) & 1u64 == 1u64);
        }
    }
    assert forall|i: int| 0 <= i < len * 4096 implies #[trigger] bit_set(d1, start, i) == (i == bit
        || bit_set(d0, start, i)) by {
        vstd::arithmetic::div_mod::lemma_div_is_ordered(i, len * 4096 - 1, 4096);
        vstd::arithmetic::div_mod::lemma_div_multiples_vanish_fancy(len - 1, 4095, 4096);
        lemma_word_written(d0, d1, start, block_id, w, new_word, i);
        vstd::arithmetic::div_mod::lemma_mod_bound(i, 64);
        lemma_bit_or(word, inner as u64, (i % 64) as u64);
        if i / 4096 == block_id && (i % 4096) / 64 == w {
            vstd::arithmetic::div_mod::lemma_fundamental_div_mod(i, 4096);
            vstd::arithmetic::div_mod::lemma_fundamental_div_mod(i % 4096, 64);
            vstd::arithmetic::div_mod::lemma_mod_mod(i, 4096, 64);
            if i % 64 == inner {
                assert(i == bit);
            } else {
                assert(i != bit);
            }
        } else {
            assert(i != bit);
        }
    }
    assert(allocated(d1, start, len) =~= allocated(d0, start, len).insert(bit));
}

/// Allocating bits one by one from a bitmap with no bit set, then freeing
/// every one of them again in any order, leaves no bit set. `trace` holds
/// the disk after each step: `allocs.len()` allocations, each adding its
/// bit, then `frees.len()` deallocations, each removing its bit, where
/// `frees` holds the same bits as `allocs`.
pub proof fn lemma_free_all_restores(
    trace: Seq<Seq<Seq<u8>>>,
    start: int,
    len: int,
    allocs: Seq<int>,
    frees: Seq<int>,
)
    requires
        trace.len() == allocs.len() + frees.len() + 1,
        allocated(trace[0], start, len) == Set::<int>::empty(),
        forall|k: int|
            0 <= k < allocs.len() ==> allocated(#[trigger] trace[k + 1], start, len) == allocated(
                trace[k],
                start,
                len,
            ).insert(allocs[k]),
        forall|k: int|
            0 <= k < frees.len() ==> allocated(#[trigger] trace[allocs.len() as int + k + 1], start, len)
                == allocated(trace[allocs.len() as int + k], start, len).remove(frees[k]),
        frees.to_set() == allocs.to_set(),
    ensures
        allocated(trace[allocs.len() + frees.len() as int], start, len) == Set::<int>::empty(),
{
    let n = allocs.len() as int;
    let m = frees.len() as int;
    lemma_allocs_prefix(trace, start, len, allocs, n);
    assert(allocs.subrange(0, n) =~= allocs);
    lemma_frees_prefix(trace, start, len, allocs, frees, m);
    assert(frees.subrange(0, m) =~= frees);
    assert(allocs.to_set().difference(frees.to_set()) =~= Set::<int>::empty());
}

proof fn lemma_allocs_prefix(
    trace: Seq<Seq<Seq<u8>>>,
    start: int,
    len: int,
    allocs: Seq<int>,
    k: int,
)
    requires
        0 <= k <= allocs.len(),
        trace.len() > allocs.len(),
        allocated(trace[0], start, len) == Set::<int>::empty(),
        forall|k: int|
            0 <= k < allocs.len() ==> allocated(#[trigger] trace[k + 1], start, len) == allocated(
                trace[k],
                start,
                len,
            ).insert(allocs[k]),
    ensures
        allocated(trace[k], start, len) == allocs.subrange(0, k).to_set(),
    decreases k,
{
    if k == 0 {
        assert(allocs.subrange(0, 0).to_set() =~= Set::<int>::empty());
    } else {
        lemma_allocs_prefix(trace, start, len, allocs, k - 1);
        assert(allocs.subrange(0, k) =~= allocs.subrange(0, k - 1) + seq![allocs[k - 1]]);
        Seq::<int>::lemma_to_set_insert_commutes(allocs.subrange(0, k - 1), allocs[k - 1]);
        assert(allocated(trace[k], start, len) == allocated(trace[k - 1], start, len).insert(
            allocs[k - 1],
        ));
    }
}

proof fn lemma_frees_prefix(
    trace: Seq<Seq<Seq<u8>>>,
    start: int,
    len: int,
    allocs: Seq<int>,
    frees: Seq<int>,
    j: int,
)
    requires
        0 <= j <= frees.len(),
        trace.len() == allocs.len() + frees.len() + 1,
        allocated(trace[allocs.len() as int], start, len) == allocs.to_set(),
        forall|k: int|
            0 <= k < frees.len() ==> allocated(#[trigger] trace[allocs.len() as int + k + 1], start, len)
                == allocated(trace[allocs.len() as int + k], start, len).remove(frees[k]),
    ensures
        allocated(trace[allocs.len() + j], start, len) == allocs.to_set().difference(
            frees.subrange(0, j).to_set(),
        ),
    decreases j,
{
    let n = allocs.len() as int;
    if j == 0 {
        assert(allocs.to_set().difference(frees.subrange(0, 0).to_set()) =~= allocs.to_set());
    } else {
        lemma_frees_prefix(trace, start, len, allocs, frees, j - 1);
        assert(frees.subrange(0, j) =~= frees.subrange(0, j - 1) + seq![frees[j - 1]]);
        Seq::<int>::lemma_to_set_insert_commutes(frees.subrange(0, j - 1), frees[j - 1]);
        let k = j - 1;
        assert(allocated(trace[allocs.len() as int + k + 1], start, len) == allocated(
            trace[allocs.len() as int + k],
            start,
            len,
        ).remove(frees[k]));
        assert(n + k + 1 == n + j);
        assert(allocated(trace[n + j], start, len) =~= allocs.to_set().difference(
            frees.subrange(0, j).to_set(),
        ));
    }
}

/// Free/used flags for a run of blocks, packed 4096 to a block as 64-bit
/// little-endian words.
pub struct Bitmap {
    start_block_id: usize,
    blocks: usize,
}

impl Bitmap {
    /// Block id of the first bitmap block.
    pub closed spec fn start(&self) -> int {
        self.start_block_id as int
    }

    /// Number of bitmap blocks.
    pub closed spec fn len(&self) -> int {
        self.blocks as int
    }

    /// Block id of the first bitmap block.
    pub fn start_block(&self) -> (r: usize)
        ensures
            r == self.start(),
    {
        self.start_block_id
    }

    /// Start and length are never negative.
    pub proof fn lemma_nonneg(&self)
        ensures
            self.start() >= 0,
            self.len() >= 0,
    {
    }

    /// A bitmap over `blocks` blocks starting at block `start_block_id`.
    pub fn new(start_block_id: usize, blocks: usize) -> (r: Self)
        ensures
            r.start() == start_block_id,
            r.len() == blocks,
    {
        Bitmap { start_block_id, blocks }
    }

    /// How many bits the bitmap holds.
    pub fn maximum(&self) -> (r: usize)
        requires
            self.len() * BLOCK_BITS <= usize::MAX,
        ensures
            r == self.len() * BLOCK_BITS,
    {
        self.blocks * BLOCK_BITS
    }

    /// Sets the lowest clear bit and returns its index, or `None` when every
    /// bit is set.
    pub fn alloc_bit<D: BlockDevice>(&self, cache: &mut BlockCacheManager<D>) -> (r: Option<usize>)
        requires
            old(cache).wf(),
            old(cache).has_room(),
            self.start() + self.len() <= old(cache).num_blocks(),
            self.len() * BLOCK_BITS <= usize::MAX,
        ensures
            final(cache).wf(),
            final(cache).has_room(),
            forall|b: int| #[trigger] final(cache).pins(b) == old(cache).pins(b),
            final(cache).num_blocks() == old(cache).num_blocks(),
            match r {
                None => {
                    &&& final(cache).disk() == old(cache).disk()
                    &&& forall|i: int|
                        0 <= i < self.len() * BLOCK_BITS ==> #[trigger] bit_set(
                            old(cache).disk(),
                            self.start(),
                            i,
                        )
                },
                Some(bit) => {
                    &&& bit < self.len() * BLOCK_BITS
                    &&& !bit_set(old(cache).disk(), self.start(), bit as int)
                    &&& forall|i: int|
                        0 <= i < bit ==> #[trigger] bit_set(old(cache).disk(), self.start(), i)
                    &&& forall|i: int|
                        0 <= i < self.len() * BLOCK_BITS ==> #[trigger] bit_set(
                            final(cache).disk(),
                            self.start(),
                            i,
                        ) == (i == bit || bit_set(old(cache).disk(), self.start(), i))
                    &&& allocated(final(cache).disk(), self.start(), self.len()) == allocated(
                        old(cache).disk(),
                        self.start(),
                        self.len(),
                    ).insert(bit as int)
                    &&& forall|b: int|
                        0 <= b < old(cache).num_blocks() && b != self.start() + bit / BLOCK_BITS
                            ==> #[trigger] final(cache).disk()[b] == old(cache).disk()[b]
                },
            },
    {
        let ghost d0 = cache.disk();
        proof {
            cache.lemma_disk_sized();
        }
        let mut block_id: usize = 0;
        while block_id < self.blocks
            invariant
                cache.wf(),
                cache.has_room(),
                forall|b: int| #[trigger] cache.pins(b) == old(cache).pins(b),
                cache.disk() == d0,
                d0 == old(cache).disk(),
                cache.num_blocks() == old(cache).num_blocks(),
                cache.num_blocks() <= usize::MAX,
                self.start() + self.len() <= cache.num_blocks(),
                self.len() * BLOCK_BITS <= usize::MAX,
                d0.len() == cache.num_blocks(),
                forall|b: int| 0 <= b < d0.len() ==> (#[trigger] d0[b]).len() == BLOCK_SZ,
                block_id <= self.blocks,
                forall|i: int| 0 <= i < block_id * 4096 ==> #[trigger] bit_set(d0, self.start(), i),
            decreases self.blocks - block_id,
        {
            let blk = self.start_block_id + block_id;
            let bytes = cache.read(blk, 0, BLOCK_SZ);
            let mut w: usize = 0;
            while w < 64
                invariant
                    cache.wf(),
                    cache.has_room(),
                forall|b: int| #[trigger] cache.pins(b) == old(cache).pins(b),
                    cache.disk() == d0,
                    d0 == old(cache).disk(),
                    cache.num_blocks() == old(cache).num_blocks(),
                    self.start() + self.len() <= cache.num_blocks(),
                    self.len() * BLOCK_BITS <= usize::MAX,
                    d0.len() == cache.num_blocks(),
                    forall|b: int| 0 <= b < d0.len() ==> (#[trigger] d0[b]).len() == BLOCK_SZ,
                    block_id < self.blocks,
                    blk == self.start() + block_id,
                    bytes@ == d0[blk as int].subrange(0, 512),
                    w <= 64,
                    forall|i: int|
                        0 <= i < block_id * 4096 + w * 64 ==> #[trigger] bit_set(d0, self.start(), i),
                decreases 64 - w,
            {
                let word = get_u64(bytes.as_slice(), w * 8);
                proof {
                    let bb = bytes@;
                    let db = d0[blk as int];
                    let o = w * 8;
                    assert(bb[o] == db[o] && bb[o + 1] == db[o + 1] && bb[o + 2] == db[o + 2] && bb[o
                        + 3] == db[o + 3] && bb[o + 4] == db[o + 4] && bb[o + 5] == db[o + 5] && bb[o
                        + 6] == db[o + 6] && bb[o + 7] == db[o + 7]);
                }
                if word != 0xffff_ffff_ffff_ffffu64 {
                    let inner = word.trailing_ones() as usize;
                    let new_word = word | (1u64 << (inner as u64));
                    let enc = u64_to_bytes(new_word);
                    cache.modify(blk, w * 8, enc.as_slice());
                    let bit = block_id * BLOCK_BITS + w * 64 + inner;
                    proof {
                        lemma_alloc_found(
                            d0,
                            cache.disk(),
                            self.start(),
                            self.len(),
                            block_id as int,
                            w as int,
                            word,
                            inner as int,
                            new_word,
                        );
                    }
                    return Some(bit);
                }
                proof {
                    assert forall|i: int|
                        0 <= i < block_id * 4096 + (w + 1) * 64 implies #[trigger] bit_set(
                            d0,
                            self.start(),
                            i,
                        ) by {
                        if i >= block_id * 4096 + w * 64 {
                            let k = i - (block_id * 4096 + w * 64);
                            lemma_coords(block_id as int, w as int, k);
                            lemma_full_word(k as u64);
                        }
                    }
                }
                w = w + 1;
            }
            block_id = block_id + 1;
        }
        None
    }

    /// Clears bit `bit`, which must be set.
    pub fn dealloc<D: BlockDevice>(&self, cache: &mut BlockCacheManager<D>, bit: usize)
        requires
            old(cache).wf(),
            old(cache).has_room(),
            self.start() + self.len() <= old(cache).num_blocks(),
            bit < self.len() * BLOCK_BITS,
            bit_set(old(cache).disk(), self.start(), bit as int),
        ensures
            final(cache).wf(),
            final(cache).has_room(),
            forall|b: int| #[trigger] final(cache).pins(b) == old(cache).pins(b),
            final(cache).num_blocks() == old(cache).num_blocks(),
            forall|i: int|
                0 <= i < self.len() * BLOCK_BITS ==> #[trigger] bit_set(
                    final(cache).disk(),
                    self.start(),
                    i,
                ) == (i != bit && bit_set(old(cache).disk(), self.start(), i)),
            allocated(final(cache).disk(), self.start(), self.len()) == allocated(
                old(cache).disk(),
                self.start(),
                self.len(),
            ).remove(bit as int),
            forall|b: int|
                0 <= b < old(cache).num_blocks() && b != self.start() + bit / BLOCK_BITS
                    ==> #[trigger] final(cache).disk()[b] == old(cache).disk()[b],
    {
        let ghost d0 = cache.disk();
        proof {
            cache.lemma_disk_sized();
            vstd::arithmetic::div_mod::lemma_div_is_ordered(bit as int, self.len() * 4096 - 1, 4096);
            vstd::arithmetic::div_mod::lemma_div_multiples_vanish_fancy(self.len() - 1, 4095, 4096);
        }
        let (block_pos, bits64_pos, inner_pos) = decomposition(bit);
        let blk = block_pos + self.start_block_id;
        let bytes = cache.read(blk, bits64_pos * 8, 8);
        let word = get_u64(bytes.as_slice(), 0);
        proof {
            assert(word == word_of(d0, self.start(), bit as int));
        }
        let new_word = word & !(1u64 << (inner_pos as u64));
        let enc = u64_to_bytes(new_word);
        cache.modify(blk, bits64_pos * 8, enc.as_slice());
        proof {
            let d1 = cache.disk();
            assert forall|i: int|
                0 <= i < self.len() * BLOCK_BITS implies #[trigger] bit_set(
                    d1,
                    self.start(),
                    i,
                ) == (i != bit && bit_set(d0, self.start(), i)) by {
                vstd::arithmetic::div_mod::lemma_div_is_ordered(i, self.len() * 4096 - 1, 4096);
                lemma_word_written(d0, d1, self.start(), block_pos as int, bits64_pos as int, new_word, i);
                vstd::arithmetic::div_mod::lemma_mod_bound(i, 64);
                lemma_bit_clear(word, inner_pos as u64, (i % 64) as u64);
                if i / 4096 == block_pos && (i % 4096) / 64 == bits64_pos as int {
                    if i % 64 == inner_pos {
                        vstd::arithmetic::div_mod::lemma_fundamental_div_mod(i, 4096);
                        vstd::arithmetic::div_mod::lemma_fundamental_div_mod(i % 4096, 64);
                        vstd::arithmetic::div_mod::lemma_fundamental_div_mod(bit as int, 4096);
                        vstd::arithmetic::div_mod::lemma_fundamental_div_mod(bit as int % 4096, 64);
                        vstd::arithmetic::div_mod::lemma_mod_mod(bit as int, 4096, 64);
                        vstd::arithmetic::div_mod::lemma_mod_mod(i, 4096, 64);
                        assert(i == bit);
                    } else {
                        assert(i != bit);
                    }
                }
            }
            assert(allocated(d1, self.start(), self.len()) =~= allocated(
                d0,
                self.start(),
                self.len(),
            ).remove(bit as int));
        }
    }
}

} // verus!
