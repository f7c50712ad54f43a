use vstd::prelude::*;

pub mod buffer;
pub mod compress;
pub mod error;
pub mod image;
pub mod inode;
pub mod layout;
pub mod mkfs;
pub mod mount;
pub mod sb;
pub mod utils;

verus! {

use crate::sb::SuperBlock;

/// The block a byte address falls in.
pub fn addr_to_blk_id(sb: &SuperBlock, addr: u64) -> (r: u32)
    requires
        sb.wf(),
        addr as int / sb.spec_blksz() <= u32::MAX,
    ensures
        r == addr as int / sb.spec_blksz(),
{
    (addr / (sb.blksz() as u64)) as u32
}

/// The byte offset of an address inside its block.
pub fn addr_to_blk_off(sb: &SuperBlock, addr: u64) -> (r: u32)
    requires
        sb.wf(),
    ensures
        r == addr as int % sb.spec_blksz(),
{
    let b = sb.blksz();
    proof {
        vstd::arithmetic::div_mod::lemma_mod_bound(addr as int, b as int);
    }
    (addr % (b as u64)) as u32
}

/// The byte address where a block begins.
pub fn blk_id_to_addr(sb: &SuperBlock, blk_id: u32) -> (r: u64)
    requires
        sb.wf(),
    ensures
        r == blk_id as int * sb.spec_blksz(),
{
    let b = sb.blksz();
    proof {
        assert(blk_id as int * b as int <= (u32::MAX as int) * 65536) by (nonlinear_arith)
            requires
                blk_id as int <= u32::MAX as int,
                0 <= b as int <= 65536,
        ;
    }
    (blk_id as u64) * (b as u64)
}

/// The inode-slot id whose record begins at an (aligned) byte address.
pub fn addr_to_nid(addr: u64) -> (r: u64)
    requires
        addr % 32 == 0,
    ensures
        r == addr / 32,
        r * 32 == addr,
{
    proof {
        vstd::arithmetic::div_mod::lemma_fundamental_div_mod(addr as int, 32);
    }
    addr / 32
}

/// The byte offset of an inode slot's record.
pub fn nid_to_inode_off(nid: u64) -> (r: u64)
    requires
        nid * 32 <= u64::MAX,
    ensures
        r == nid * 32,
{
    nid * 32
}

/// The byte offset of an inode slot's variable tail.
pub fn nid_to_inode_meta_off(nid: u64) -> (r: u64)
    requires
        (nid + 1) * 32 <= u64::MAX,
    ensures
        r == (nid + 1) * 32,
{
    (nid + 1) * 32
}

} // verus!
