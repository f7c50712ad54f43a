use vstd::prelude::*;

verus! {

use vstd::arithmetic::power2::pow2;
use crate::error::CodexFsError;
use crate::image::Image;
use crate::layout::{
    CodexFsFlags, CodexFsSuperBlock, CODEXFS_ISLOT_BITS, CODEXFS_MAGIC, CODEXFS_SB_BYTES,
    CODEXFS_SUPERBLK_OFF,
};
use crate::utils::round_up;

/// The in-memory filesystem session state shared by the build and mount
/// paths: geometry, the running inode counter, the root inode's slot in the
/// inode table, and the location of the final (short) compressed data block.
pub struct SuperBlock {
    pub islot_bits: u8,
    pub blksz_bits: u8,
    pub ino: u32,
    pub root: Option<usize>,
    pub end_data_blk_id: u32,
    pub end_data_blk_sz: u32,
    pub compress: bool,
}

impl SuperBlock {
    /// Block size bits must give a block of at least one inode slot's
    /// alignment span and at most what the on-disk u16 offsets can carry.
    pub open spec fn wf(self) -> bool {
        &&& 5 <= self.blksz_bits <= 16
        &&& self.islot_bits == CODEXFS_ISLOT_BITS
    }

    pub open spec fn spec_blksz(self) -> int {
        pow2(self.blksz_bits as nat) as int
    }

    pub fn new(blksz_bits: u8) -> (r: SuperBlock)
        requires
            5 <= blksz_bits <= 16,
        ensures
            r.wf(),
            r.blksz_bits == blksz_bits,
            r.islot_bits == CODEXFS_ISLOT_BITS,
            r.ino == 0,
            r.root is None,
            r.end_data_blk_id == 0,
            r.end_data_blk_sz == 0,
            r.compress == false,
    {
        SuperBlock {
            islot_bits: CODEXFS_ISLOT_BITS,
            blksz_bits,
            ino: 0,
            root: None,
            end_data_blk_id: 0,
            end_data_blk_sz: 0,
            compress: false,
        }
    }

    pub fn blksz(&self) -> (r: u32)
        requires
            self.wf(),
        ensures
            r == self.spec_blksz(),
            32 <= r <= 65536,
            r % 32 == 0,
    {
        proof {
            vstd::arithmetic::power2::lemma2_to64();
            vstd::bits::lemma_u32_shl_is_mul(1u32, self.blksz_bits as u32);
            if self.blksz_bits < 16 {
                vstd::arithmetic::power2::lemma_pow2_strictly_increases(
                    self.blksz_bits as nat,
                    16,
                );
            }
            if self.blksz_bits > 5 {
                vstd::arithmetic::power2::lemma_pow2_strictly_increases(
                    5,
                    self.blksz_bits as nat,
                );
            }
            vstd::arithmetic::power2::lemma_pow2_adds(5, (self.blksz_bits - 5) as nat);
            vstd::arithmetic::div_mod::lemma_mod_multiples_basic(
                pow2((self.blksz_bits - 5) as nat) as int,
                32,
            );
            assert(32 * pow2((self.blksz_bits - 5) as nat) == pow2(
                (self.blksz_bits - 5) as nat,
            ) * 32) by (nonlinear_arith);
        }
        1u32 << (self.blksz_bits as u32)
    }

    /// The byte size of an inode slot, which equals the inode record size.
    pub fn islotsz(&self) -> (r: u8)
        requires
            self.wf(),
        ensures
            r == 32,
    {
        proof {
            vstd::arithmetic::power2::lemma2_to64();
            vstd::bits::lemma_u8_shl_is_mul(1u8, CODEXFS_ISLOT_BITS);
        }
        1u8 << CODEXFS_ISLOT_BITS
    }

    pub fn set_root(&mut self, root: usize)
        ensures
            *final(self) == (SuperBlock { root: Some(root), ..*old(self) }),
    {
        self.root = Some(root);
    }

    pub fn root(&self) -> (r: usize)
        requires
            self.root is Some,
        ensures
            r == self.root.unwrap(),
    {
        match self.root {
            Some(r) => r,
            None => 0,
        }
    }

    /// Hand out the next inode number.
    pub fn get_ino_and_inc(&mut self) -> (r: u32)
        requires
            old(self).ino < u32::MAX,
        ensures
            r == old(self).ino,
            *final(self) == (SuperBlock { ino: (old(self).ino + 1) as u32, ..*old(self) }),
    {
        let ino = self.ino;
        self.ino = self.ino + 1;
        ino
    }

    /// Copy the fields of an on-disk superblock record into the session.
    /// The geometry is validated; the root inode is loaded separately.
    pub fn from_codexfs_sb(&mut self, rec: &CodexFsSuperBlock) -> (r: Result<
        (),
        CodexFsError,
    >)
        ensures
            r is Ok <==> (5 <= rec.blksz_bits <= 16 && rec.islot_bits == CODEXFS_ISLOT_BITS),
            r matches Ok(_) ==> *final(self) == (SuperBlock {
                islot_bits: rec.islot_bits,
                blksz_bits: rec.blksz_bits,
                end_data_blk_id: rec.end_data_blk_id,
                end_data_blk_sz: rec.end_data_blk_sz,
                compress: rec.flags.spec_compressed(),
                ..*old(self)
            }),
            r matches Ok(_) ==> final(self).wf(),
            r is Err ==> r == Err::<(), CodexFsError>(CodexFsError::FormatError) && *final(self)
                == *old(self),
    {
        if rec.blksz_bits < 5 || rec.blksz_bits > 16 || rec.islot_bits != CODEXFS_ISLOT_BITS {
            return Err(CodexFsError::FormatError);
        }
        self.islot_bits = rec.islot_bits;
        self.blksz_bits = rec.blksz_bits;
        self.end_data_blk_id = rec.end_data_blk_id;
        self.end_data_blk_sz = rec.end_data_blk_sz;
        self.compress = rec.flags.contains_compressed();
        Ok(())
    }

    /// The on-disk superblock record this session writes, given the root
    /// inode's nid.
    pub fn to_codexfs_sb(&self, root_nid: u64) -> (r: CodexFsSuperBlock)
        ensures
            r == (CodexFsSuperBlock {
                magic: CODEXFS_MAGIC,
                checksum: 0,
                blksz_bits: self.blksz_bits,
                root_nid,
                inos: self.ino,
                islot_bits: self.islot_bits,
                blocks: 0,
                end_data_blk_id: self.end_data_blk_id,
                end_data_blk_sz: self.end_data_blk_sz,
                flags: if self.compress {
                    CodexFsFlags(1u8)
                } else {
                    CodexFsFlags(0u8)
                },
            }),
    {
        let flags = if self.compress {
            CodexFsFlags::compressed()
        } else {
            CodexFsFlags::empty()
        };
        CodexFsSuperBlock {
            magic: CODEXFS_MAGIC,
            checksum: 0,
            blksz_bits: self.blksz_bits,
            root_nid,
            inos: self.ino,
            islot_bits: self.islot_bits,
            blocks: 0,
            end_data_blk_id: self.end_data_blk_id,
            end_data_blk_sz: self.end_data_blk_sz,
            flags,
        }
    }
}

/// Parse and validate the superblock record at the head of an image.
/// Succeeds exactly when the image holds a full record with the right magic
/// number and a sane geometry.
pub fn fuse_load_super_block(img: &Image) -> (r: Result<SuperBlock, CodexFsError>)
    ensures
        r is Err ==> (r == Err::<SuperBlock, CodexFsError>(CodexFsError::FormatError) || r
            == Err::<SuperBlock, CodexFsError>(CodexFsError::IoError)),
        r is Err ==> (img.data@.len() < CODEXFS_SB_BYTES || {
            let rec = CodexFsSuperBlock::spec_decode(
                img.data@.subrange(0, CODEXFS_SB_BYTES as int),
            );
            ||| rec.magic != CODEXFS_MAGIC
            ||| rec.blksz_bits < 5
            ||| rec.blksz_bits > 16
            ||| rec.islot_bits != CODEXFS_ISLOT_BITS
        }),
        r matches Ok(sb) ==> {
            &&& sb.wf()
            &&& img.data@.len() >= CODEXFS_SB_BYTES
            &&& {
                let rec = CodexFsSuperBlock::spec_decode(
                    img.data@.subrange(0, CODEXFS_SB_BYTES as int),
                );
                &&& rec.magic == CODEXFS_MAGIC
                &&& sb.islot_bits == rec.islot_bits
                &&& sb.blksz_bits == rec.blksz_bits
                &&& sb.end_data_blk_id == rec.end_data_blk_id
                &&& sb.end_data_blk_sz == rec.end_data_blk_sz
                &&& sb.compress == rec.flags.spec_compressed()
                &&& sb.root is None
            }
        },
{
    let buf = match img.read_exact_at(CODEXFS_SUPERBLK_OFF, CODEXFS_SB_BYTES) {
        Ok(b) => b,
        Err(e) => {
            return Err(e);
        },
    };
    let rec = CodexFsSuperBlock::decode(&buf, 0);
    proof {
        assert(buf@.subrange(0, CODEXFS_SB_BYTES as int) =~= img.data@.subrange(
            0,
            CODEXFS_SB_BYTES as int,
        ));
    }
    if rec.magic != CODEXFS_MAGIC {
        return Err(CodexFsError::FormatError);
    }
    let mut sb = SuperBlock::new(12);
    sb.ino = rec.inos;
    match sb.from_codexfs_sb(&rec) {
        Ok(_) => Ok(sb),
        Err(e) => Err(e),
    }
}

/// Reserve the superblock's bytes at the head of the image.  The build
/// starts from a fresh allocator, so this is the first region handed out;
/// the reservation must land at offset zero, where the record is later
/// written.
pub fn mkfs_balloc_super_block(buf_mgr: &mut crate::buffer::BufferManager) -> (r: Result<
    u64,
    CodexFsError,
>)
    requires
        old(buf_mgr).wf(),
        old(buf_mgr).n_blocks() + 8 <= u32::MAX,
    ensures
        final(buf_mgr).wf(),
        final(buf_mgr).blksz == old(buf_mgr).blksz,
        r matches Ok(pos) ==> (pos == 0 && final(buf_mgr).regions@ == old(
            buf_mgr,
        ).regions@.push((0int, CODEXFS_SB_BYTES as int))),
{
    proof {
        vstd::arithmetic::div_mod::lemma_div_is_ordered_by_denominator(
            CODEXFS_SB_BYTES as int,
            32,
            old(buf_mgr).spec_blksz(),
        );
    }
    let pos = buf_mgr.balloc(CODEXFS_SB_BYTES as u64, crate::buffer::BufferType::Meta);
    if pos != 0 {
        return Err(CodexFsError::FormatError);
    }
    Ok(pos)
}

/// Write the superblock record into the image.
pub fn mkfs_dump_super_block(sb: &SuperBlock, img: &mut Image, root_nid: u64)
    requires
        old(img).data@.len() + CODEXFS_SB_BYTES <= usize::MAX,
    ensures
        final(img).data@ == crate::image::spec_write(
            old(img).data@,
            CODEXFS_SUPERBLK_OFF as int,
            sb.to_codexfs_sb_spec(root_nid).spec_encode(),
        ),
        final(img).data@.len() >= CODEXFS_SB_BYTES,
{
    let rec = sb.to_codexfs_sb(root_nid);
    let bytes = rec.encode();
    img.write_all_at(&bytes, CODEXFS_SUPERBLK_OFF);
}

impl SuperBlock {
    /// The record `to_codexfs_sb` returns, as a spec-level value.
    pub open spec fn to_codexfs_sb_spec(self, root_nid: u64) -> CodexFsSuperBlock {
        CodexFsSuperBlock {
            magic: CODEXFS_MAGIC,
            checksum: 0,
            blksz_bits: self.blksz_bits,
            root_nid,
            inos: self.ino,
            islot_bits: self.islot_bits,
            blocks: 0,
            end_data_blk_id: self.end_data_blk_id,
            end_data_blk_sz: self.end_data_blk_sz,
            flags: if self.compress {
                CodexFsFlags(1u8)
            } else {
                CodexFsFlags(0u8)
            },
        }
    }
}

/// Pad the image with zero bytes out to a whole block boundary.
pub fn mkfs_align_block_size(sb: &SuperBlock, img: &mut Image)
    requires
        sb.wf(),
        old(img).data@.len() + 65536 <= usize::MAX,
    ensures
        final(img).data@.len() as int % sb.spec_blksz() == 0,
        final(img).data@.len() >= old(img).data@.len(),
        final(img).data@.subrange(0, old(img).data@.len() as int) == old(img).data@,
        forall|j: int|
            old(img).data@.len() <= j < final(img).data@.len() ==> final(img).data@[j] == 0u8,
{
    let bsz = sb.blksz();
    let cur: u64 = img.len();
    let target: u64 = round_up(cur, bsz as u64);
    if target > cur {
        let pad: Vec<u8> = alloc_zero_vec((target - cur) as usize);
        img.write_all_at(&pad, cur);
        proof {
            assert(img.data@.subrange(0, old(img).data@.len() as int) =~= old(img).data@);
        }
    } else {
        proof {
            assert(img.data@.subrange(0, old(img).data@.len() as int) =~= old(img).data@);
        }
    }
}

/// A vector of `n` zero bytes.
pub fn alloc_zero_vec(n: usize) -> (r: Vec<u8>)
    ensures
        r@ =~= crate::layout::zero_bytes(n as nat),
        r@.len() == n,
{
    let mut v: Vec<u8> = Vec::new();
    crate::layout::put_zeros(&mut v, n);
    v
}

} // verus!
