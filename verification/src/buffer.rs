use vstd::prelude::*;

verus! {

use crate::layout::CODEXFS_INODE_BYTES;
use crate::utils::{round_up, spec_round_up};

/// The alignment classes of an allocation.
#[derive(Clone, Copy, Debug)]
pub enum BufferType {
    Meta,
    Inode,
    ZData,
    Data,
}

pub open spec fn spec_align(btype: BufferType, blksz: u32) -> u32 {
    match btype {
        BufferType::Meta => 1,
        BufferType::Inode => CODEXFS_INODE_BYTES as u32,
        BufferType::ZData => blksz,
        BufferType::Data => 1,
    }
}

pub fn get_align(btype: BufferType, blksz: u32) -> (r: u32)
    ensures
        r == spec_align(btype, blksz),
{
    match btype {
        BufferType::Meta => 1,
        BufferType::Inode => CODEXFS_INODE_BYTES as u32,
        BufferType::ZData => blksz,
        BufferType::Data => 1,
    }
}

/// Two half-open byte ranges, given as (start, length), do not overlap.
/// An empty range overlaps nothing.
pub open spec fn region_disjoint(a: (int, int), b: (int, int)) -> bool {
    a.1 == 0 || b.1 == 0 || a.0 + a.1 <= b.0 || b.0 + b.1 <= a.0
}

/// The range avoids the free room `[k*bsz + off, (k+1)*bsz)` of block `k`;
/// a full block has no free room to avoid.
pub open spec fn region_avoids_block_free(r: (int, int), k: int, off: int, bsz: int) -> bool {
    off >= bsz || r.0 + r.1 <= k * bsz + off || r.0 >= (k + 1) * bsz
}


proof fn lemma_mul_mod_zero(x: int, b: int, a: int)
    requires
        a > 0,
        x >= 0,
        b >= 0,
        b % a == 0,
    ensures
        (x * b) % a == 0,
{
    let m = b / a;
    vstd::arithmetic::div_mod::lemma_fundamental_div_mod(b, a);
    assert(x * b == (x * m) * a) by (nonlinear_arith)
        requires
            b == a * m + b % a,
            b % a == 0,
    ;
    vstd::arithmetic::div_mod::lemma_mod_multiples_basic(x * m, a);
}

proof fn lemma_sum_mod_zero(x: int, y: int, a: int)
    requires
        a > 0,
        x >= 0,
        y >= 0,
        x % a == 0,
        y % a == 0,
    ensures
        (x + y) % a == 0,
{
    vstd::arithmetic::div_mod::lemma_add_mod_noop(x, y, a);
    vstd::arithmetic::div_mod::lemma_small_mod(0nat, a as nat);
}

/// One block of the emerging image: its id and the number of bytes of it
/// already spoken for.
pub struct BufferBlock {
    pub blk_id: u32,
    pub blk_off: u32,
}

impl BufferBlock {
    pub fn new(blk_id: u32) -> (r: BufferBlock)
        ensures
            r.blk_id == blk_id,
            r.blk_off == 0,
    {
        BufferBlock { blk_id, blk_off: 0 }
    }

    pub fn addr(&self, blksz: u32) -> (r: u64)
        requires
            self.blk_id as int * blksz as int + self.blk_off as int <= u64::MAX,
        ensures
            r == self.blk_id as int * blksz as int + self.blk_off as int,
    {
        self.blk_id as u64 * blksz as u64 + self.blk_off as u64
    }
}

/// Buckets of block ids, indexed by the room each block still has free.
pub struct BufferBlockTable(pub Vec<Vec<u32>>);

impl BufferBlockTable {
    pub fn new(blksz: u32) -> (r: BufferBlockTable)
        requires
            blksz <= 65536,
        ensures
            r.0@.len() == blksz + 1,
            forall|i: int| 0 <= i < r.0@.len() ==> (#[trigger] r.0@[i])@.len() == 0,
    {
        let mut buckets: Vec<Vec<u32>> = Vec::new();
        let n: usize = blksz as usize + 1;
        let mut i: usize = 0;
        while i < n
            invariant
                i <= n,
                buckets@.len() == i,
                forall|k: int| 0 <= k < i ==> (#[trigger] buckets@[k])@.len() == 0,
            decreases n - i,
        {
            buckets.push(Vec::new());
            i = i + 1;
        }
        BufferBlockTable(buckets)
    }
}

/// The image-space allocator: a tail that extends the image, and a table of
/// partially filled blocks reusable by later small allocations.
pub struct BufferManager {
    pub blksz: u32,
    pub blocks: Vec<BufferBlock>,
    pub table: BufferBlockTable,
    /// Every (address, rounded size) this allocator has handed out.
    pub regions: Ghost<Seq<(int, int)>>,
}

impl BufferManager {
    pub open spec fn spec_blksz(self) -> int {
        self.blksz as int
    }

    pub open spec fn n_blocks(self) -> int {
        self.blocks@.len() as int
    }

    pub open spec fn blk_off(self, k: int) -> int {
        self.blocks@[k].blk_off as int
    }

    /// The image extent the allocator has laid claim to so far.
    pub open spec fn frontier(self) -> int {
        self.n_blocks() * self.spec_blksz()
    }

    pub open spec fn blocks_wf(self) -> bool {
        &&& 1 <= self.blocks@.len() <= u32::MAX
        &&& forall|k: int|
            0 <= k < self.blocks@.len() ==> (#[trigger] self.blocks@[k]).blk_id == k
                && self.blocks@[k].blk_off <= self.blksz
    }

    pub open spec fn buckets_wf(self) -> bool {
        &&& self.table.0@.len() == self.blksz + 1
        &&& forall|i: int, j: int|
            #![trigger self.table.0@[i]@[j]]
            0 <= i < self.table.0@.len() && 0 <= j < self.table.0@[i]@.len() ==> (
            self.table.0@[i]@[j] < self.blocks@.len() && self.blocks@[self.table.0@[i]@[j] as int].blk_off
                == self.blksz - i)
        &&& forall|i: int, j1: int, j2: int|
            #![trigger self.table.0@[i]@[j1], self.table.0@[i]@[j2]]
            0 <= i < self.table.0@.len() && 0 <= j1 < j2 < self.table.0@[i]@.len()
                ==> self.table.0@[i]@[j1] != self.table.0@[i]@[j2]
    }

    /// The tail block can be found in the table, so that its room can be
    /// claimed when an allocation extends the image.
    pub open spec fn tail_in_table(self) -> bool {
        self.table.0@[self.spec_blksz() - self.blk_off(self.n_blocks() - 1)]@.contains(
            (self.blocks@.len() - 1) as u32,
        )
    }

    pub open spec fn regions_wf(self) -> bool {
        &&& forall|p: int|
            0 <= p < self.regions@.len() ==> (#[trigger] self.regions@[p]).0 >= 0
                && self.regions@[p].1 >= 0 && self.regions@[p].0 + self.regions@[p].1
                <= self.frontier()
        &&& forall|p: int, q: int|
            0 <= p < q < self.regions@.len() ==> region_disjoint(
                #[trigger] self.regions@[p],
                #[trigger] self.regions@[q],
            )
        &&& forall|p: int, k: int|
            #![trigger self.regions@[p], self.blocks@[k]]
            0 <= p < self.regions@.len() && 0 <= k < self.n_blocks()
                ==> region_avoids_block_free(
                self.regions@[p],
                k,
                self.blk_off(k),
                self.spec_blksz(),
            )
    }

    pub open spec fn wf(self) -> bool {
        &&& 32 <= self.blksz <= 65536
        &&& self.blksz % 32 == 0
        &&& self.blocks_wf()
        &&& self.buckets_wf()
        &&& self.tail_in_table()
        &&& self.regions_wf()
    }

    /// The regions this allocator has handed out are pairwise disjoint,
    /// inside the image, and aligned blocks of the requested rounded sizes.
    /// This is the allocator's soundness law; it holds in every reachable
    /// state, since `new` establishes `wf` and `balloc` preserves it.
    pub proof fn lemma_regions_sound(self)
        requires
            self.wf(),
        ensures
            forall|p: int, q: int|
                0 <= p < q < self.regions@.len() ==> region_disjoint(
                    #[trigger] self.regions@[p],
                    #[trigger] self.regions@[q],
                ),
            forall|p: int|
                0 <= p < self.regions@.len() ==> 0 <= (#[trigger] self.regions@[p]).0
                    && self.regions@[p].0 + self.regions@[p].1 <= self.frontier(),
    {
    }

    pub fn new(blksz: u32) -> (r: BufferManager)
        requires
            32 <= blksz <= 65536,
            blksz % 32 == 0,
        ensures
            r.wf(),
            r.blksz == blksz,
            r.regions@ =~= Seq::<(int, int)>::empty(),
            r.n_blocks() == 1,
            r.blk_off(0) == 0,
    {
        let mut mgr = BufferManager {
            blksz,
            blocks: Vec::new(),
            table: BufferBlockTable::new(blksz),
            regions: Ghost(Seq::empty()),
        };
        mgr.blocks.push(BufferBlock::new(0));
        mgr.push_block(0);
        proof {
            let bucket = mgr.table.0@[mgr.spec_blksz()]@;
            assert(mgr.table.0@[mgr.spec_blksz() - mgr.blk_off(0)]@ == bucket);
            assert(bucket.contains(0u32)) by {
                assert(bucket[bucket.len() - 1] == 0u32);
            }
        }
        mgr
    }

    pub fn tail_blk_id(&self) -> (r: u32)
        requires
            self.blocks_wf(),
        ensures
            r == self.n_blocks() - 1,
    {
        (self.blocks.len() - 1) as u32
    }



    /// Hand out a fresh region of `size` bytes (rounded up to the alignment
    /// class of `btype`), reusing a tabled block when one fits and extending
    /// the image otherwise.  The returned address is aligned, the region lies
    /// inside the image, and it is disjoint from every region handed out
    /// before, as `wf` records.
    pub fn balloc(&mut self, size: u64, btype: BufferType) -> (r: u64)
        requires
            old(self).wf(),
            size <= u64::MAX - 65536,
            old(self).n_blocks() + size as int / old(self).spec_blksz() + 3 <= u32::MAX,
        ensures
            final(self).wf(),
            final(self).blksz == old(self).blksz,
            final(self).n_blocks() >= old(self).n_blocks(),
            final(self).frontier() <= old(self).frontier() + spec_round_up(
                size as int,
                spec_align(btype, old(self).blksz) as int,
            ) + old(self).blksz,
            final(self).regions@ == old(self).regions@.push(
                (
                    r as int,
                    spec_round_up(size as int, spec_align(btype, old(self).blksz) as int),
                ),
            ),
            r as int % spec_align(btype, old(self).blksz) as int == 0,
            r + spec_round_up(size as int, spec_align(btype, old(self).blksz) as int)
                <= final(self).frontier(),
    {
        let align: u32 = get_align(btype, self.blksz);
        proof {
            if align == self.blksz {
                vstd::arithmetic::div_mod::lemma_mod_self_0(self.blksz as int);
            } else {
                assert(align == 1 || align == 32);

            }
        }
        let aligned_size: u64 = round_up(size, align as u64);
        proof {
            let bsz = self.spec_blksz();
            vstd::arithmetic::div_mod::lemma_div_is_ordered(
                aligned_size as int,
                size as int + bsz,
                bsz,
            );
            vstd::arithmetic::div_mod::lemma_div_plus_one(size as int, bsz);
        }
        let found = self.bfind(aligned_size, align);
        match found {
            Some(addr) => addr,
            None => self.balloc_contig(aligned_size, align),
        }
    }

    /// A block id occurs in at most one table slot: its bucket binds its
    /// free room, and within a bucket entries are distinct.
    proof fn lemma_entry_unique(self, i: int, j: int)
        requires
            self.blocks_wf(),
            self.buckets_wf(),
            0 <= i < self.table.0@.len(),
            0 <= j < self.table.0@[i]@.len(),
        ensures
            forall|i2: int, j2: int|
                #![trigger self.table.0@[i2]@[j2]]
                0 <= i2 < self.table.0@.len() && 0 <= j2 < self.table.0@[i2]@.len() && (i2 != i
                    || j2 != j) ==> self.table.0@[i2]@[j2] != self.table.0@[i]@[j],
    {
        let e = self.table.0@[i]@[j];
        assert forall|i2: int, j2: int|
            #![trigger self.table.0@[i2]@[j2]]
            0 <= i2 < self.table.0@.len() && 0 <= j2 < self.table.0@[i2]@.len() && (i2 != i || j2
                != j) implies self.table.0@[i2]@[j2] != e by {
            if self.table.0@[i2]@[j2] == e {
                assert(self.blocks@[e as int].blk_off == self.blksz - i);
                assert(self.blocks@[e as int].blk_off == self.blksz - i2);
                assert(i2 == i);
                if j2 < j {
                    assert(self.table.0@[i]@[j2] != self.table.0@[i]@[j]);
                } else {
                    assert(self.table.0@[i]@[j] != self.table.0@[i]@[j2]);
                }
            }
        }
    }

    /// Claim `aligned_size` bytes from a partially filled block whose free
    /// room suffices, smallest fit first.  Fails when no tabled block fits.
    fn bfind(&mut self, aligned_size: u64, align: u32) -> (r: Option<u64>)
        requires
            old(self).wf(),
            1 <= align <= old(self).blksz,
            old(self).blksz as int % align as int == 0,
            aligned_size as int % align as int == 0,
        ensures
            final(self).blksz == old(self).blksz,
            r is None ==> *final(self) == *old(self),
            r matches Some(addr) ==> {
                &&& final(self).wf()
                &&& final(self).n_blocks() == old(self).n_blocks()
                &&& final(self).regions@ == old(self).regions@.push(
                    (addr as int, aligned_size as int),
                )
                &&& addr as int % align as int == 0
                &&& addr + aligned_size <= final(self).frontier()
            },
    {
        if aligned_size > self.blksz as u64 {
            return None;
        }
        let asz: u32 = aligned_size as u32;
        let mut i: usize = asz as usize;
        while i <= self.blksz as usize
            invariant
                *self == *old(self),
                old(self).wf(),
                asz == aligned_size,
                1 <= align <= self.blksz,
                self.blksz as int % align as int == 0,
                aligned_size as int % align as int == 0,
                aligned_size <= self.blksz,
            decreases self.blksz as int + 1 - i,
        {
            if self.table.0[i].len() > 0 {
                // every block in this bucket has this much of it used
                let boff: u32 = self.blksz - i as u32;
                let aoff: u64 = round_up(boff as u64, align as u64);
                if aoff + aligned_size <= self.blksz as u64 {
                    let ghost pre = *self;
                    let ghost jpop = self.table.0@[i as int]@.len() - 1;
                    proof {
                        pre.lemma_entry_unique(i as int, jpop);
                    }
                    let bucket = &mut self.table.0[i];
                    let popped = bucket.pop();
                    let id: u32 = match popped {
                        Some(id) => id,
                        None => {
                            proof {
                                assert(false);
                            }
                            0
                        },
                    };
                    let ghost mid = *self;
                    proof {
                        assert(id == pre.table.0@[i as int]@[jpop]);
                        assert(id < self.blocks@.len() && self.blocks@[id as int].blk_off == boff);
                    }
                    let new_off: u32 = (aoff + aligned_size) as u32;
                    proof {
                        assert(id as int * self.blksz as int <= (u32::MAX - 1) as int * 65536)
                            by (nonlinear_arith)
                            requires
                                id as int <= (u32::MAX - 1) as int,
                                self.blksz as int <= 65536,
                        ;
                    }
                    let addr: u64 = id as u64 * self.blksz as u64 + aoff;
                    self.blocks[id as usize] = BufferBlock { blk_id: id, blk_off: new_off };
                    proof {
                        // after the pop, `id` sits nowhere in the table
                        assert forall|i2: int, j2: int|
                            #![trigger self.table.0@[i2]@[j2]]
                            0 <= i2 < self.table.0@.len() && 0 <= j2 < self.table.0@[i2]@.len()
                            implies self.table.0@[i2]@[j2] != id by {
                            if i2 == i as int {
                                assert(self.table.0@[i2]@[j2] == pre.table.0@[i2]@[j2]);
                            } else {
                                assert(self.table.0@[i2]@[j2] == pre.table.0@[i2]@[j2]);
                            }
                        }
                        // bucket consistency survives the pop and the off update
                        assert forall|i2: int, j2: int|
                            #![trigger self.table.0@[i2]@[j2]]
                            0 <= i2 < self.table.0@.len() && 0 <= j2 < self.table.0@[i2]@.len()
                            implies (self.table.0@[i2]@[j2] < self.blocks@.len()
                            && self.blocks@[self.table.0@[i2]@[j2] as int].blk_off == self.blksz
                            - i2) by {
                            assert(self.table.0@[i2]@[j2] == pre.table.0@[i2]@[j2]);
                            assert(self.table.0@[i2]@[j2] != id);
                        }
                        assert forall|i2: int, j1: int, j2: int|
                            #![trigger self.table.0@[i2]@[j1], self.table.0@[i2]@[j2]]
                            0 <= i2 < self.table.0@.len() && 0 <= j1 < j2
                                < self.table.0@[i2]@.len() implies self.table.0@[i2]@[j1]
                            != self.table.0@[i2]@[j2] by {
                            assert(self.table.0@[i2]@[j1] == pre.table.0@[i2]@[j1]);
                            assert(self.table.0@[i2]@[j2] == pre.table.0@[i2]@[j2]);
                        }
                    }
                    self.push_block(id);
                    self.regions = Ghost(self.regions@.push((addr as int, aligned_size as int)));
                    proof {
                        let bsz = self.spec_blksz();
                        let gid = id as int;
                        let rnew = (addr as int, aligned_size as int);
                        // the handed-out range is aligned
                        lemma_mul_mod_zero(gid, bsz, align as int);
                        lemma_sum_mod_zero(gid * bsz, aoff as int, align as int);
                        // it stays inside block `id`
                        assert((gid + 1) * bsz <= self.n_blocks() * bsz) by (nonlinear_arith)
                            requires
                                gid + 1 <= self.n_blocks(),
                                bsz >= 0,
                        ;
                        assert(rnew.0 + rnew.1 <= (gid + 1) * bsz) by (nonlinear_arith)
                            requires
                                rnew.0 == gid * bsz + aoff,
                                rnew.1 == aligned_size as int,
                                aoff + aligned_size <= bsz,
                        ;
                        // disjoint from every earlier region, which avoided
                        // the free room of block `id`
                        assert forall|p: int| 0 <= p < pre.regions@.len() implies region_disjoint(
                            pre.regions@[p],
                            rnew,
                        ) by {
                            if aligned_size > 0 {
                                assert(boff < self.blksz);
                                assert(region_avoids_block_free(
                                    pre.regions@[p],
                                    gid,
                                    boff as int,
                                    bsz,
                                ));
                                assert(rnew.0 >= gid * bsz + boff);
                            }
                        }
                        assert forall|p: int, q: int|
                            0 <= p < q < self.regions@.len() implies region_disjoint(
                            #[trigger] self.regions@[p],
                            #[trigger] self.regions@[q],
                        ) by {
                            if q == self.regions@.len() - 1 {
                                assert(self.regions@[p] == pre.regions@[p]);
                                assert(self.regions@[q] == rnew);
                            } else {
                                assert(self.regions@[p] == pre.regions@[p]);
                                assert(self.regions@[q] == pre.regions@[q]);
                            }
                        }
                        assert forall|p: int|
                            0 <= p < self.regions@.len() implies (#[trigger] self.regions@[p]).0
                            >= 0 && self.regions@[p].1 >= 0 && self.regions@[p].0
                            + self.regions@[p].1 <= self.frontier() by {
                            if p < pre.regions@.len() {
                                assert(self.regions@[p] == pre.regions@[p]);
                            } else {
                                assert(self.regions@[p] == rnew);
                            }
                        }
                        // the regions list still avoids every block's free room
                        assert forall|p: int, k: int|
                            #![trigger self.regions@[p], self.blocks@[k]]
                            0 <= p < self.regions@.len() && 0 <= k < self.n_blocks()
                            implies region_avoids_block_free(
                            self.regions@[p],
                            k,
                            self.blk_off(k),
                            bsz,
                        ) by {
                            if p < pre.regions@.len() {
                                assert(region_avoids_block_free(
                                    pre.regions@[p],
                                    k,
                                    pre.blk_off(k),
                                    bsz,
                                ));
                                assert(self.regions@[p] == pre.regions@[p]);
                            } else {
                                assert(self.regions@[p] == rnew);
                                if k == gid {
                                    assert(rnew.0 + rnew.1 == gid * bsz + new_off);
                                } else if k < gid {
                                    assert((k + 1) * bsz <= gid * bsz) by (nonlinear_arith)
                                        requires
                                            k + 1 <= gid,
                                            bsz >= 0,
                                    ;
                                } else {
                                    assert((gid + 1) * bsz <= k * bsz) by (nonlinear_arith)
                                        requires
                                            gid + 1 <= k,
                                            bsz >= 0,
                                    ;
                                }
                            }
                        }
                        // the tail block is still tabled
                        let tail = (pre.blocks@.len() - 1) as u32;
                        let tb = pre.spec_blksz() - pre.blk_off(tail as int);
                        if tail == id {
                            let nb = self.spec_blksz() - self.blk_off(tail as int);
                            assert(self.table.0@[nb]@.contains(tail)) by {
                                assert(self.table.0@[nb]@.last() == tail);
                            }
                        } else {
                            let jt = choose|jt: int|
                                0 <= jt < pre.table.0@[tb]@.len() && pre.table.0@[tb]@[jt] == tail;
                            assert(jt != jpop || tb != i as int);
                            assert(self.table.0@[tb]@.contains(tail)) by {
                                assert(self.table.0@[tb]@[jt] == tail);
                            }
                        }
                    }
                    return Some(addr);
                }
            }
            i = i + 1;
        }
        None
    }


    /// Move `blk_id` to the bucket matching a new, larger used offset.
    fn update_block(&mut self, blk_id: u32, new_off: u32)
        requires
            old(self).blocks_wf(),
            old(self).buckets_wf(),
            old(self).regions_wf(),
            blk_id < old(self).blocks@.len(),
            old(self).blk_off(blk_id as int) <= new_off <= old(self).blksz,
            old(self).table.0@[old(self).spec_blksz() - old(self).blk_off(blk_id as int)]@.contains(
                blk_id,
            ),
        ensures
            final(self).blksz == old(self).blksz,
            final(self).regions == old(self).regions,
            final(self).blocks@ =~= old(self).blocks@.update(
                blk_id as int,
                BufferBlock { blk_id, blk_off: new_off },
            ),
            final(self).blocks_wf(),
            final(self).buckets_wf(),
            final(self).regions_wf(),
            final(self).table.0@[final(self).spec_blksz() - new_off]@.contains(blk_id),
            forall|x: u32, i: int|
                #![trigger old(self).table.0@[i]@.contains(x)]
                x != blk_id && 0 <= i < old(self).table.0@.len() && old(self).table.0@[i]@.contains(
                    x,
                ) ==> final(self).table.0@[i]@.contains(x),
    {
        let ghost pre = *self;
        let off = self.blocks[blk_id as usize].blk_off;
        let bi: usize = (self.blksz - off) as usize;
        let blen: usize = self.table.0[bi].len();
        let mut j: usize = 0;
        while j < blen && *(&self.table.0[bi][j]) != blk_id
            invariant
                *self == pre,
                j <= blen,
                bi < self.table.0@.len(),
                blen == self.table.0@[bi as int]@.len(),
                forall|j2: int| 0 <= j2 < j ==> self.table.0@[bi as int]@[j2] != blk_id,
            decreases blen - j,
        {
            j = j + 1;
        }
        proof {
            if j == blen {
                let jw = choose|jw: int|
                    0 <= jw < pre.table.0@[bi as int]@.len() && pre.table.0@[bi as int]@[jw]
                        == blk_id;
                assert(false);
            }
            pre.lemma_entry_unique(bi as int, j as int);
        }
        let bucket = &mut self.table.0[bi];
        bucket.remove(j);
        let ghost mid = *self;
        self.blocks[blk_id as usize] = BufferBlock { blk_id, blk_off: new_off };
        proof {
            // after removal, `blk_id` sits nowhere in the table
            assert forall|i2: int, j2: int|
                #![trigger self.table.0@[i2]@[j2]]
                0 <= i2 < self.table.0@.len() && 0 <= j2 < self.table.0@[i2]@.len() implies
                self.table.0@[i2]@[j2] != blk_id by {
                if i2 == bi as int {
                    if j2 < j {
                        assert(self.table.0@[i2]@[j2] == pre.table.0@[i2]@[j2]);
                    } else {
                        assert(self.table.0@[i2]@[j2] == pre.table.0@[i2]@[j2 + 1]);
                    }
                } else {
                    assert(self.table.0@[i2]@[j2] == pre.table.0@[i2]@[j2]);
                }
            }
            assert forall|i2: int, j2: int|
                #![trigger self.table.0@[i2]@[j2]]
                0 <= i2 < self.table.0@.len() && 0 <= j2 < self.table.0@[i2]@.len() implies (
            self.table.0@[i2]@[j2] < self.blocks@.len()
                && self.blocks@[self.table.0@[i2]@[j2] as int].blk_off == self.blksz - i2) by {
                if i2 == bi as int && j2 >= j {
                    assert(self.table.0@[i2]@[j2] == pre.table.0@[i2]@[j2 + 1]);
                } else {
                    assert(self.table.0@[i2]@[j2] == pre.table.0@[i2]@[j2]);
                }
                assert(self.table.0@[i2]@[j2] != blk_id);
            }
            assert forall|i2: int, j1: int, j2: int|
                #![trigger self.table.0@[i2]@[j1], self.table.0@[i2]@[j2]]
                0 <= i2 < self.table.0@.len() && 0 <= j1 < j2 < self.table.0@[i2]@.len() implies
                self.table.0@[i2]@[j1] != self.table.0@[i2]@[j2] by {
                if i2 == bi as int {
                    let o1: int = if j1 < j { j1 } else { j1 + 1 };
                    let o2: int = if j2 < j { j2 } else { j2 + 1 };
                    assert(self.table.0@[i2]@[j1] == pre.table.0@[i2]@[o1]);
                    assert(self.table.0@[i2]@[j2] == pre.table.0@[i2]@[o2]);
                } else {
                }
            }
        }
        self.push_block(blk_id);
        proof {
            let nb = self.spec_blksz() - new_off;
            assert(self.table.0@[nb]@.contains(blk_id)) by {
                assert(self.table.0@[nb]@.last() == blk_id);
            }
            // other ids keep their buckets
            assert forall|x: u32, i: int|
                #![trigger pre.table.0@[i]@.contains(x)]
                x != blk_id && 0 <= i < pre.table.0@.len() && pre.table.0@[i]@.contains(x) implies
                self.table.0@[i]@.contains(x) by {
                let jx = choose|jx: int|
                    0 <= jx < pre.table.0@[i]@.len() && pre.table.0@[i]@[jx] == x;
                if i == bi as int {
                    if jx < j {
                        assert(mid.table.0@[i]@[jx] == x);
                        assert(self.table.0@[i]@[jx] == x);
                        assert(self.table.0@[i]@.contains(x));
                    } else {
                        assert(jx != j);
                        assert(mid.table.0@[i]@[jx - 1] == x);
                        assert(self.table.0@[i]@[jx - 1] == x);
                        assert(self.table.0@[i]@.contains(x));
                    }
                } else {
                    if i == nb {
                        assert(self.table.0@[i]@[jx] == x);
                        assert(self.table.0@[i]@.contains(x));
                    } else {
                        assert(self.table.0@[i]@[jx] == x);
                        assert(self.table.0@[i]@.contains(x));
                    }
                }
            }
            // regions still avoid every block's free room: only blk_id's
            // room changed, and it only shrank
            assert forall|p: int, k: int|
                #![trigger self.regions@[p], self.blocks@[k]]
                0 <= p < self.regions@.len() && 0 <= k < self.n_blocks()
                implies region_avoids_block_free(
                self.regions@[p],
                k,
                self.blk_off(k),
                self.spec_blksz(),
            ) by {
                assert(region_avoids_block_free(
                    pre.regions@[p],
                    k,
                    pre.blk_off(k),
                    pre.spec_blksz(),
                ));
                assert(self.regions@[p] == pre.regions@[p]);
            }
        }
    }


    /// The rounded offset stays inside the block: `bsz` is itself a multiple
    /// of the alignment.
    proof fn lemma_round_up_in_block(toff: int, a: int, bsz: int, r: int)
        requires
            a > 0,
            0 <= toff <= bsz,
            bsz % a == 0,
            r % a == 0,
            toff <= r < toff + a,
        ensures
            r <= bsz,
    {
        if r > bsz {
            let d = r - bsz;
            vstd::arithmetic::div_mod::lemma_sub_mod_noop(r, bsz, a);
            vstd::arithmetic::div_mod::lemma_small_mod(0nat, a as nat);
            assert(d % a == 0);
            vstd::arithmetic::div_mod::lemma_small_mod(d as nat, a as nat);
        }
    }

    /// Extend the image with whole blocks, claiming first whatever room the
    /// tail block still has.
    #[verifier::loop_isolation(false)]
    fn balloc_contig(&mut self, aligned_size: u64, align: u32) -> (r: u64)
        requires
            old(self).wf(),
            1 <= align <= old(self).blksz,
            old(self).blksz as int % align as int == 0,
            aligned_size as int % align as int == 0,
            old(self).n_blocks() + aligned_size as int / old(self).blksz as int + 2 <= u32::MAX,
        ensures
            final(self).wf(),
            final(self).blksz == old(self).blksz,
            final(self).n_blocks() >= old(self).n_blocks(),
            final(self).frontier() <= old(self).frontier() + aligned_size + old(self).blksz,
            final(self).regions@ == old(self).regions@.push((r as int, aligned_size as int)),
            r as int % align as int == 0,
            r + aligned_size <= final(self).frontier(),
    {
        let ghost pre = *self;
        let bsz: u32 = self.blksz;
        let tail32: u32 = (self.blocks.len() - 1) as u32;
        let toff: u32 = self.blocks[tail32 as usize].blk_off;
        let aoff64: u64 = round_up(toff as u64, align as u64);
        proof {
            Self::lemma_round_up_in_block(
                toff as int,
                align as int,
                bsz as int,
                aoff64 as int,
            );
            assert(tail32 as int * bsz as int <= (u32::MAX - 1) as int * 65536)
                by (nonlinear_arith)
                requires
                    tail32 as int <= (u32::MAX - 1) as int,
                    bsz as int <= 65536,
            ;
            lemma_mul_mod_zero(tail32 as int, bsz as int, align as int);
        }
        let aoff: u32 = aoff64 as u32;
        let ghost gtail = tail32 as int;
        let ghost gbsz = bsz as int;
        proof {
            vstd::arithmetic::div_mod::lemma_fundamental_div_mod(aligned_size as int, gbsz);
            vstd::arithmetic::div_mod::lemma_mod_bound(aligned_size as int, gbsz);
            assert(aligned_size as int <= 65536 * (u32::MAX as int) + 65536) by (nonlinear_arith)
                requires
                    aligned_size as int == gbsz * (aligned_size as int / gbsz)
                        + aligned_size as int % gbsz,
                    0 <= aligned_size as int % gbsz < gbsz,
                    0 <= aligned_size as int / gbsz <= u32::MAX,
                    0 < gbsz <= 65536,
            ;
        }
        if aoff as u64 + aligned_size <= bsz as u64 {
            // the whole request fits in the tail block's free room
            let addr: u64 = tail32 as u64 * bsz as u64 + aoff as u64;
            self.update_block(tail32, aoff + aligned_size as u32);
            self.regions = Ghost(self.regions@.push((addr as int, aligned_size as int)));
            proof {
                let rnew = (addr as int, aligned_size as int);
                lemma_sum_mod_zero(gtail * gbsz, aoff as int, align as int);
                assert((gtail + 1) * gbsz == gtail * gbsz + gbsz) by (nonlinear_arith);
                assert((gtail + 1) * gbsz <= self.n_blocks() * gbsz) by (nonlinear_arith)
                    requires
                        gtail + 1 <= self.n_blocks(),
                        gbsz >= 0,
                ;
                assert forall|p: int| 0 <= p < pre.regions@.len() implies region_disjoint(
                    pre.regions@[p],
                    rnew,
                ) by {
                    if aligned_size > 0 {
                        assert(toff < bsz);
                        assert(region_avoids_block_free(
                            pre.regions@[p],
                            gtail,
                            toff as int,
                            gbsz,
                        ));
                    }
                }
                assert forall|p: int, q: int|
                    0 <= p < q < self.regions@.len() implies region_disjoint(
                    #[trigger] self.regions@[p],
                    #[trigger] self.regions@[q],
                ) by {
                    if q == self.regions@.len() - 1 {
                        assert(self.regions@[p] == pre.regions@[p]);
                    } else {
                        assert(self.regions@[p] == pre.regions@[p]);
                        assert(self.regions@[q] == pre.regions@[q]);
                    }
                }
                assert forall|p: int|
                    0 <= p < self.regions@.len() implies (#[trigger] self.regions@[p]).0 >= 0
                    && self.regions@[p].1 >= 0 && self.regions@[p].0 + self.regions@[p].1
                    <= self.frontier() by {
                    if p < pre.regions@.len() {
                        assert(self.regions@[p] == pre.regions@[p]);
                    } else {
                        assert(self.regions@[p] == (addr as int, aligned_size as int));
                        assert((gtail + 1) * gbsz == gtail * gbsz + gbsz) by (nonlinear_arith);
                    }
                }
                assert forall|p: int, k: int|
                    #![trigger self.regions@[p], self.blocks@[k]]
                    0 <= p < self.regions@.len() && 0 <= k < self.n_blocks()
                    implies region_avoids_block_free(
                    self.regions@[p],
                    k,
                    self.blk_off(k),
                    gbsz,
                ) by {
                    if p < pre.regions@.len() {
                        assert(region_avoids_block_free(
                            pre.regions@[p],
                            k,
                            pre.blk_off(k),
                            gbsz,
                        ));
                        assert(self.regions@[p] == pre.regions@[p]);
                        if k != gtail {
                            assert(self.blk_off(k) == pre.blk_off(k));
                        }
                    } else {
                        assert(self.regions@[p] == rnew);
                        if k == gtail {
                            assert(rnew.0 + rnew.1 == gtail * gbsz + self.blk_off(gtail));
                        } else if k < gtail {
                            assert((k + 1) * gbsz <= gtail * gbsz) by (nonlinear_arith)
                                requires
                                    k + 1 <= gtail,
                                    gbsz >= 0,
                            ;
                        } else {
                            assert((gtail + 1) * gbsz <= k * gbsz) by (nonlinear_arith)
                                requires
                                    gtail + 1 <= k,
                                    gbsz >= 0,
                            ;
                        }
                    }
                }
            }
            return addr;
        }
        // the request spans past the tail block
        proof {
            assert((tail32 as int + 1) * gbsz <= (u32::MAX as int) * 65536) by (nonlinear_arith)
                requires
                    tail32 as int + 1 <= u32::MAX as int,
                    0 < gbsz <= 65536,
            ;
        }
        let addr: u64 = if aoff < bsz {
            tail32 as u64 * bsz as u64 + aoff as u64
        } else {
            (tail32 as u64 + 1) * bsz as u64
        };
        let mut size_left: u64;
        if aoff < bsz {
            self.update_block(tail32, bsz);
            size_left = aligned_size - (bsz - aoff) as u64;
        } else {
            size_left = aligned_size;
        }
        proof {
            lemma_sum_mod_zero(gtail * gbsz, aoff as int, align as int);
            lemma_mul_mod_zero(gtail + 1, gbsz, align as int);
            assert((gtail as int + 1) * gbsz == gtail * gbsz + gbsz) by (nonlinear_arith);
            assert(addr + aligned_size - size_left == self.frontier());
            assert(addr <= pre.frontier());
        }
        let ghost pren = pre.n_blocks();
        let ghost entry = *self;
        while size_left > 0
            invariant
                self.blksz == bsz,
                32 <= bsz <= 65536,
                bsz % 32 == 0,
                self.blocks_wf(),
                self.buckets_wf(),
                self.tail_in_table(),
                self.regions == pre.regions,
                self.regions_wf(),
                size_left <= aligned_size,
                size_left > 0 ==> addr + aligned_size - size_left == self.frontier(),
                size_left == 0 ==> addr + aligned_size == (self.n_blocks() - 1) * gbsz
                    + self.blk_off(self.n_blocks() - 1),
                addr <= pren * gbsz,
                pren <= self.n_blocks(),
                pren + aligned_size as int / gbsz + 2 <= u32::MAX,
                gbsz == bsz as int,
                forall|k: int|
                    pren <= k < self.n_blocks() - 1 ==> #[trigger] self.blk_off(k) == gbsz,
                size_left > 0 && self.n_blocks() > pren ==> self.blk_off(self.n_blocks() - 1)
                    == gbsz,
                forall|k: int| 0 <= k < pren ==> #[trigger] self.blk_off(k) == entry.blk_off(k),
            decreases size_left,
        {
            let take: u32 = if size_left >= bsz as u64 {
                bsz
            } else {
                size_left as u32
            };
            let newid_usize: usize = self.blocks.len();
            proof {
                // the block count stays within u32 range
                vstd::arithmetic::div_mod::lemma_fundamental_div_mod(aligned_size as int, gbsz);
                vstd::arithmetic::div_mod::lemma_mod_bound(aligned_size as int, gbsz);
                let cap = pren + aligned_size as int / gbsz + 1;
                assert(self.n_blocks() * gbsz <= pren * gbsz + aligned_size) by {
                    assert(addr + aligned_size - size_left == self.n_blocks() * gbsz);
                }
                assert(pren * gbsz + aligned_size <= cap * gbsz) by (nonlinear_arith)
                    requires
                        aligned_size as int == gbsz * (aligned_size as int / gbsz)
                            + aligned_size as int % gbsz,
                        aligned_size as int % gbsz < gbsz,
                        cap == pren + aligned_size as int / gbsz + 1,
                ;
                assert(self.n_blocks() <= cap) by (nonlinear_arith)
                    requires
                        self.n_blocks() * gbsz <= cap * gbsz,
                        gbsz > 0,
                ;
            }
            let newid: u32 = newid_usize as u32;
            let ghost mid = *self;
            self.blocks.push(BufferBlock { blk_id: newid, blk_off: take });
            proof {
                assert forall|i2: int, j2: int|
                    #![trigger self.table.0@[i2]@[j2]]
                    0 <= i2 < self.table.0@.len() && 0 <= j2 < self.table.0@[i2]@.len() implies (
                self.table.0@[i2]@[j2] < self.blocks@.len()
                    && self.blocks@[self.table.0@[i2]@[j2] as int].blk_off == self.blksz - i2
                    && self.table.0@[i2]@[j2] != newid) by {
                    assert(mid.table.0@[i2]@[j2] == self.table.0@[i2]@[j2]);
                    assert(mid.table.0@[i2]@[j2] < mid.blocks@.len());
                }
            }
            self.push_block(newid);
            proof {
                let gn: int = self.blocks@.len() as int;
                assert(gn == self.n_blocks());
                assert(self.blocks@ == mid.blocks@.push(
                    BufferBlock { blk_id: newid, blk_off: take },
                ));
                assert(mid.blocks@.push(BufferBlock { blk_id: newid, blk_off: take }).len()
                    == mid.blocks@.len() + 1);
                assert(self.blocks@.len() == mid.blocks@.len() + 1);
                assert forall|k: int| 0 <= k < mid.blocks@.len() implies self.blocks@[k]
                    == mid.blocks@[k] by {
                    assert(mid.blocks@.push(BufferBlock { blk_id: newid, blk_off: take })[k]
                        == mid.blocks@[k]);
                }
                assert(self.blk_off(gn - 1) == take);
                assert forall|k: int| pren <= k < gn - 1 implies #[trigger] self.blk_off(k)
                    == gbsz by {
                    assert(0 <= k < mid.blocks@.len());
                    assert(self.blocks@[k] == mid.blocks@[k]);
                    if k == mid.n_blocks() - 1 {
                        assert(mid.blk_off(k) == gbsz);
                    } else {
                        assert(mid.blk_off(k) == gbsz);
                    }
                }
                assert forall|k: int| 0 <= k < pren implies #[trigger] self.blk_off(k)
                    == entry.blk_off(k) by {
                    assert(0 <= k < mid.blocks@.len());
                    assert(self.blocks@[k] == mid.blocks@[k]);
                    assert(mid.blk_off(k) == entry.blk_off(k));
                }
                let nb = self.spec_blksz() - take;
                assert(self.table.0@[nb]@.contains(newid)) by {
                    assert(self.table.0@[nb]@.last() == newid);
                }
                assert(gn * gbsz == (gn - 1) * gbsz + gbsz) by (nonlinear_arith);
                // earlier regions end before the fresh block begins
                assert forall|p: int, k: int|
                    #![trigger self.regions@[p], self.blocks@[k]]
                    0 <= p < self.regions@.len() && 0 <= k < gn
                    implies region_avoids_block_free(
                    self.regions@[p],
                    k,
                    self.blk_off(k),
                    gbsz,
                ) by {
                    if k < gn - 1 {
                        assert(region_avoids_block_free(
                            self.regions@[p],
                            k,
                            mid.blk_off(k),
                            gbsz,
                        ));
                    } else {
                        assert(self.regions@[p].0 + self.regions@[p].1 <= (gn - 1) * gbsz);
                    }
                }
                assert forall|p: int|
                    0 <= p < self.regions@.len() implies (#[trigger] self.regions@[p]).0 >= 0
                    && self.regions@[p].1 >= 0 && self.regions@[p].0 + self.regions@[p].1
                    <= self.frontier() by {
                    assert(self.regions@[p].0 + self.regions@[p].1 <= (gn - 1) * gbsz);
                }
            }
            size_left = size_left - take as u64;
        }
        let ghost post = *self;
        self.regions = Ghost(self.regions@.push((addr as int, aligned_size as int)));
        proof {
            let rnew = (addr as int, aligned_size as int);
            let gn = self.n_blocks();
            assert(self.blocks@ == post.blocks@);
            assert forall|k: int| pren <= k < gn - 1 implies #[trigger] self.blk_off(k)
                == gbsz by {
                assert(post.blk_off(k) == gbsz);
            }
            assert forall|k: int| 0 <= k < pren implies #[trigger] self.blk_off(k)
                == entry.blk_off(k) by {
                assert(post.blk_off(k) == entry.blk_off(k));
            }
            assert(rnew.0 + rnew.1 == (gn - 1) * gbsz + self.blk_off(gn - 1));
            assert(gn * gbsz == (gn - 1) * gbsz + gbsz) by (nonlinear_arith);
            assert(rnew.0 + rnew.1 <= self.frontier());
            assert forall|p: int| 0 <= p < pre.regions@.len() implies region_disjoint(
                pre.regions@[p],
                rnew,
            ) by {
                if aligned_size > 0 {
                    if aoff < bsz {
                        assert(region_avoids_block_free(
                            pre.regions@[p],
                            gtail,
                            toff as int,
                            gbsz,
                        ));
                        assert(toff < bsz);
                        assert(rnew.0 >= gtail * gbsz + toff);
                    } else {
                        assert(pre.regions@[p].0 + pre.regions@[p].1 <= pre.frontier());
                        assert(pre.frontier() == (gtail + 1) * gbsz);
                        assert(rnew.0 == (gtail + 1) * gbsz);
                    }
                }
            }
            assert forall|p: int, q: int|
                0 <= p < q < self.regions@.len() implies region_disjoint(
                #[trigger] self.regions@[p],
                #[trigger] self.regions@[q],
            ) by {
                if q == self.regions@.len() - 1 {
                    assert(self.regions@[p] == pre.regions@[p]);
                } else {
                    assert(self.regions@[p] == pre.regions@[p]);
                    assert(self.regions@[q] == pre.regions@[q]);
                }
            }
            assert forall|p: int|
                0 <= p < self.regions@.len() implies (#[trigger] self.regions@[p]).0 >= 0
                && self.regions@[p].1 >= 0 && self.regions@[p].0 + self.regions@[p].1
                <= self.frontier() by {
                if p < pre.regions@.len() {
                    assert(self.regions@[p] == pre.regions@[p]);
                } else {
                    assert(self.regions@[p] == rnew);
                }
            }
            assert forall|p: int, k: int|
                #![trigger self.regions@[p], self.blocks@[k]]
                0 <= p < self.regions@.len() && 0 <= k < gn implies region_avoids_block_free(
                self.regions@[p],
                k,
                self.blk_off(k),
                gbsz,
            ) by {
                if p < pre.regions@.len() {
                    assert(self.regions@[p] == pre.regions@[p]);
                } else {
                    assert(self.regions@[p] == rnew);
                    if k >= pren {
                        if self.blk_off(k) < gbsz {
                            assert(rnew.0 + rnew.1 <= k * gbsz + self.blk_off(k)) by {
                                assert((k + 1) * gbsz <= gn * gbsz) by (nonlinear_arith)
                                    requires
                                        k + 1 <= gn,
                                        gbsz >= 0,
                                ;
                                assert(k * gbsz + gbsz == (k + 1) * gbsz) by (nonlinear_arith);
                                if k < gn - 1 {
                                    assert(self.blk_off(k) == gbsz);
                                }
                            }
                        }
                    } else if k == gtail {
                        if aoff < bsz {
                            assert(entry.blk_off(k) == gbsz);
                            assert(self.blk_off(k) == gbsz);
                        } else {
                            assert(rnew.0 >= (gtail + 1) * gbsz);
                        }
                    } else {
                        assert((k + 1) * gbsz <= gtail * gbsz) by (nonlinear_arith)
                            requires
                                k + 1 <= gtail,
                                gbsz >= 0,
                        ;
                        assert(rnew.0 >= gtail * gbsz + toff);
                    }
                }
            }
        }
        addr
    }

    /// Record `blk_id` in the bucket matching its free room.
    fn push_block(&mut self, blk_id: u32)
        requires
            old(self).table.0@.len() == old(self).blksz + 1,
            old(self).blocks_wf(),
            old(self).buckets_wf(),
            blk_id < old(self).blocks@.len(),
            forall|i: int, j: int|
                #![trigger old(self).table.0@[i]@[j]]
                0 <= i < old(self).table.0@.len() && 0 <= j < old(self).table.0@[i]@.len() ==> old(
                    self,
                ).table.0@[i]@[j] != blk_id,
        ensures
            final(self).blksz == old(self).blksz,
            final(self).blocks == old(self).blocks,
            final(self).regions == old(self).regions,
            final(self).table.0@.len() == old(self).table.0@.len(),
            forall|i: int|
                0 <= i < old(self).table.0@.len() && i != old(self).spec_blksz() - old(self).blk_off(
                    blk_id as int,
                ) ==> final(self).table.0@[i] == old(self).table.0@[i],
            final(self).table.0@[old(self).spec_blksz() - old(self).blk_off(blk_id as int)]@ == old(
                self,
            ).table.0@[old(self).spec_blksz() - old(self).blk_off(blk_id as int)]@.push(blk_id),
            final(self).buckets_wf(),
    {
        let ghost bi_g = self.spec_blksz() - self.blk_off(blk_id as int);
        let off = self.blocks[blk_id as usize].blk_off;
        let bi: usize = (self.blksz - off) as usize;
        let bucket = &mut self.table.0[bi];
        bucket.push(blk_id);
        proof {
            assert(self.table.0@[bi_g]@ == old(self).table.0@[bi_g]@.push(blk_id));
            assert forall|i: int, j: int|
                0 <= i < self.table.0@.len() && 0 <= j < self.table.0@[i]@.len() implies (
            #[trigger] self.table.0@[i]@[j]) < self.blocks@.len()
                && self.blocks@[self.table.0@[i]@[j] as int].blk_off == self.blksz - i by {
                if i == bi_g && j == self.table.0@[i]@.len() - 1 {
                } else {
                    assert(self.table.0@[i]@[j] == old(self).table.0@[i]@[j]);
                }
            }
            assert forall|i: int, j1: int, j2: int|
                0 <= i < self.table.0@.len() && 0 <= j1 < j2 < self.table.0@[i]@.len() implies
                self.table.0@[i]@[j1] != self.table.0@[i]@[j2] by {
                if i == bi_g {
                    if j2 == self.table.0@[i]@.len() - 1 {
                        assert(self.table.0@[i]@[j1] == old(self).table.0@[i]@[j1]);
                        assert(old(self).table.0@[i]@[j1] != blk_id);
                    } else {
                        assert(self.table.0@[i]@[j1] == old(self).table.0@[i]@[j1]);
                        assert(self.table.0@[i]@[j2] == old(self).table.0@[i]@[j2]);
                    }
                } else {
                    assert(self.table.0@[i]@[j1] == old(self).table.0@[i]@[j1]);
                    assert(self.table.0@[i]@[j2] == old(self).table.0@[i]@[j2]);
                }
            }
        }
    }
}

} // verus!
