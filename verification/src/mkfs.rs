use vstd::prelude::*;

verus! {

use crate::buffer::BufferManager;
use crate::compress::CompressManager;
use crate::error::CodexFsError;
use crate::image::Image;
use crate::inode::{InodeTable, SourceNode};
use crate::sb::SuperBlock;
use crate::compress::is_perm;

/// The block size bits of a power-of-two block size in the supported
/// range.
pub fn blksz_to_bits(blksz: u32) -> (r: Option<u8>)
    ensures
        r matches Some(bits) ==> 5 <= bits <= 16 && blksz as int == vstd::arithmetic::power2::pow2(
            bits as nat,
        ),
{
    let mut p: u32 = 32;
    let mut bits: u8 = 5;
    proof {
        vstd::arithmetic::power2::lemma2_to64();
    }
    while p < blksz && bits < 16
        invariant
            5 <= bits <= 16,
            p as int == vstd::arithmetic::power2::pow2(bits as nat),
            p <= 65536,
        decreases 16 - bits,
    {
        proof {
            vstd::arithmetic::power2::lemma_pow2_unfold((bits + 1) as nat);
            vstd::arithmetic::power2::lemma2_to64();
            if bits + 1 < 16 {
                vstd::arithmetic::power2::lemma_pow2_strictly_increases(
                    (bits + 1) as nat,
                    16,
                );
            }
        }
        p = p * 2;
        bits = bits + 1;
    }
    if p == blksz {
        Some(bits)
    } else {
        None
    }
}

/// Build a whole image from a source tree: load the inode forest, reserve
/// the superblock, lay out the file data (similarity-ordered and
/// compressed, or raw), assign inode slots, and write every record.
#[verifier::loop_isolation(false)]
#[verifier::rlimit(100)]
pub fn mkfs_build_image(
    root: &SourceNode,
    blksz: u32,
    compress: bool,
    lzma_level: u32,
) -> (r: Result<(Image, SuperBlock, InodeTable), CodexFsError>)
    ensures
        r matches Ok(out) ==> {
            &&& out.1.wf()
            &&& out.2.wf()
            &&& out.1.root matches Some(ridx) && ridx < out.2.inodes@.len()
            &&& out.0.data@.len() >= 128
            &&& crate::layout::CodexFsSuperBlock::spec_decode(out.0.data@.subrange(0, 128))
                == out.1.to_codexfs_sb_spec(
                out.2.inodes@[out.1.root.unwrap() as int].meta.inner.nid,
            )
            &&& forall|k: int|
                0 <= k < out.2.inodes@.len() ==> #[trigger] crate::inode::inode_dumped(
                    out.0.data@,
                    out.1.compress,
                    out.2.inodes@[k],
                )
            &&& forall|k: int|
                0 <= k < out.2.inodes@.len() ==> #[trigger] crate::inode::dir_tail_dumped(
                    out.0.data@,
                    out.2.inodes@,
                    k,
                )
        },
{
    let bits = match blksz_to_bits(blksz) {
        Some(b) => b,
        None => {
            return Err(CodexFsError::FormatError);
        },
    };
    // The reader decodes under a fixed 16 MiB memory limit; presets past 7
    // need a larger dictionary than that allows, so images built with them
    // could never be read back.
    if lzma_level > 7 {
        return Err(CodexFsError::FormatError);
    }
    let mut sb = SuperBlock::new(bits);
    sb.compress = compress;
    let mut table = InodeTable::new();
    let mut cmpr = CompressManager::new(lzma_level);
    let mut files: Vec<usize> = Vec::new();
    let root_idx = match crate::inode::mkfs_load_inode(
        root,
        None,
        &mut sb,
        &mut table,
        &mut files,
    ) {
        Ok(i) => i,
        Err(e) => {
            return Err(e);
        },
    };
    sb.set_root(root_idx);
    proof {
        vstd::arithmetic::power2::lemma2_to64();
        if bits < 16 {
            vstd::arithmetic::power2::lemma_pow2_strictly_increases(bits as nat, 16);
        }
        if bits > 5 {
            vstd::arithmetic::power2::lemma_pow2_strictly_increases(5, bits as nat);
        }
        vstd::arithmetic::power2::lemma_pow2_adds(5, (bits - 5) as nat);
        vstd::arithmetic::div_mod::lemma_mod_multiples_basic(
            vstd::arithmetic::power2::pow2((bits - 5) as nat) as int,
            32,
        );
        assert(32 * vstd::arithmetic::power2::pow2((bits - 5) as nat)
            == vstd::arithmetic::power2::pow2((bits - 5) as nat) * 32) by (nonlinear_arith);
    }
    let mut buf_mgr = BufferManager::new(blksz);
    let mut img = Image::new();
    match crate::sb::mkfs_balloc_super_block(&mut buf_mgr) {
        Ok(_) => {},
        Err(e) => {
            return Err(e);
        },
    }
    cmpr.files = files;
    // Machine limits, not format limits.  Every proof here must hold for
    // each usize width the verifier models, 32-bit included, so image
    // byte addresses are kept provably below 2^31 rather than tied to the
    // build target's pointer size; on 64-bit targets the caps are simply
    // conservative.  Within that budget a single inode slot can span at
    // most 19,500 minimum-sized blocks (a 64 KiB-bounded tail over
    // 32-byte blocks), which prices 200,000 inodes into the u32 block-id
    // space; the per-file and total data caps below do the same for the
    // data area.
    if table.inodes.len() > 200000 {
        return Err(CodexFsError::FormatError);
    }
    if cmpr.files.len() > 200000 {
        return Err(CodexFsError::FormatError);
    }
    proof {
        assert forall|k: int|
            0 <= k < cmpr.files@.len() implies crate::compress::is_loaded_file(
            table.inodes@,
            #[trigger] cmpr.files@[k] as int,
        ) by {
            assert(crate::inode::fresh_file(table.inodes@, cmpr.files@[k] as int));
        }
    }
    // Each file must stay within what the similarity digest's source
    // supports outright (floor(u32::MAX / 6) bytes, so no bucket counter
    // in it can overflow); that bound also keeps each file's contribution
    // to the image address budget described above.
    {
        let nf0 = cmpr.files.len();
        let mut k: usize = 0;
        while k < nf0
            invariant
                k <= nf0,
                nf0 == cmpr.files@.len(),
                crate::compress::files_loaded(table.inodes@, cmpr.files@),
                forall|j: int|
                    0 <= j < k ==> crate::compress::file_content(
                        table.inodes@,
                        #[trigger] cmpr.files@[j] as int,
                    ).len() <= 715827882,
            decreases nf0 - k,
        {
            let c = crate::compress::content_ref(&table.inodes, cmpr.files[k]);
            if c.len() > 715827882 {
                return Err(CodexFsError::FormatError);
            }
            k = k + 1;
        }
    }
    let ghost pre_files = cmpr.files@;
    let ghost pre_files_len = cmpr.files@.len();
    if compress {
        cmpr.reorder(&table.inodes);
        if cmpr.file_data.len() as u64 > 0x7ff00000u64 {
            return Err(CodexFsError::FormatError);
        }
        let nb: u64 = buf_mgr.tail_blk_id() as u64 + 1;
        if nb > 1000 {
            return Err(CodexFsError::FormatError);
        }
        let dlen: u64 = cmpr.file_data.len() as u64;
        proof {
            assert(nb as int * (blksz as int) + (2 * dlen as int + 4) * (blksz as int)
                < 0x7fff_ffff_ffff_ffff) by (nonlinear_arith)
                requires
                    nb as int <= 1000,
                    dlen as int <= 0x7ff00000,
                    blksz as int <= 65536,
            ;
        }
        if nb * (blksz as u64) + (2 * dlen + 4) * (blksz as u64) >= usize::MAX as u64 {
            return Err(CodexFsError::FormatError);
        }
        proof {
            assert(buf_mgr.frontier() == buf_mgr.n_blocks() * buf_mgr.spec_blksz());
            let perm = choose|perm: Seq<usize>|
                is_perm(perm, pre_files_len as int) && cmpr.files@ =~= Seq::new(
                    pre_files_len,
                    |k: int| pre_files[#[verifier::truncate] (perm[k] as int)],
                );
            assert forall|k1: int, k2: int|
                0 <= k1 < k2 < cmpr.files@.len() implies cmpr.files@[k1] != cmpr.files@[k2] by {
                assert(cmpr.files@[k1] == pre_files[perm[k1] as int]);
                assert(cmpr.files@[k2] == pre_files[perm[k2] as int]);
                assert(perm[k1] != perm[k2]);
            }
            assert forall|k: int|
                0 <= k < cmpr.files@.len() implies crate::inode::spec_file_extents(
                table.inodes@,
                #[trigger] cmpr.files@[k] as int,
            ).len() == 0 by {
                assert(cmpr.files@[k] == pre_files[perm[k] as int]);
                assert(crate::inode::fresh_file(table.inodes@, cmpr.files@[k] as int));
            }
        }
        match crate::inode::mkfs_dump_inode_file_data_z(
            &mut sb,
            &mut img,
            &mut buf_mgr,
            &mut table.inodes,
            &cmpr,
        ) {
            Ok(_) => {},
            Err(e) => {
                return Err(e);
            },
        }
    } else {
        cmpr.load_stream(&table.inodes);
        if cmpr.file_data.len() as u64 > 0x7ff00000u64 {
            return Err(CodexFsError::FormatError);
        }
        let nb: u64 = buf_mgr.tail_blk_id() as u64 + 1;
        if nb > 1000 {
            return Err(CodexFsError::FormatError);
        }
        let dlen: u64 = cmpr.file_data.len() as u64;
        let nf: u64 = cmpr.files.len() as u64;
        if nb + 2 * nf + 2 * dlen + 10 > u32::MAX as u64 {
            return Err(CodexFsError::FormatError);
        }
        proof {
            assert(nb as int * (blksz as int) + (nf as int + dlen as int + 4) * 2 * (
            blksz as int) < 0x7fff_ffff_ffff_ffff) by (nonlinear_arith)
                requires
                    nb as int <= 1000,
                    dlen as int <= 0x7ff00000,
                    nf as int <= 200000,
                    blksz as int <= 65536,
            ;
        }
        if nb * (blksz as u64) + (nf + dlen + 4) * 2 * (blksz as u64) >= usize::MAX as u64 {
            return Err(CodexFsError::FormatError);
        }
        proof {
            assert(buf_mgr.frontier() == buf_mgr.n_blocks() * buf_mgr.spec_blksz());
            assert((nf as int + dlen as int + 4) * 2 * (blksz as int) == (nf as int
                + dlen as int + 4) * (2 * (blksz as int))) by (nonlinear_arith);
        }
        match crate::inode::mkfs_dump_inode_file_data(
            &sb,
            &mut img,
            &mut buf_mgr,
            &mut table.inodes,
            &cmpr,
        ) {
            Ok(_) => {},
            Err(e) => {
                return Err(e);
            },
        }
    }
    let nb2: u64 = buf_mgr.tail_blk_id() as u64 + 1;
    let ni: u64 = table.inodes.len() as u64;
    proof {
        assert(ni as int * 20000 <= 200000int * 20000) by (nonlinear_arith)
            requires
                ni as int <= 200000,
        ;
    }
    if nb2 + ni * 20000 + 10 > u32::MAX as u64 {
        return Err(CodexFsError::FormatError);
    }
    proof {
        assert(nb2 as int * (blksz as int) + ni as int * 20000 * (blksz as int)
            < 0x7000_0000_0000_0000) by (nonlinear_arith)
            requires
                nb2 as int <= u32::MAX as int,
                ni as int <= 200000,
                blksz as int <= 65536,
        ;
    }
    if nb2 * (blksz as u64) + ni * 20000 * (blksz as u64) >= usize::MAX as u64 {
        return Err(CodexFsError::FormatError);
    }
    proof {
        assert(buf_mgr.frontier() == buf_mgr.n_blocks() * buf_mgr.spec_blksz());
    }
    let ghost pre_slot_inodes = table.inodes@;
    let ghost region_base = buf_mgr.regions@.len();
    match crate::inode::mkfs_balloc_inode(&sb, &mut buf_mgr, &mut table.inodes) {
        Ok(_) => {},
        Err(e) => {
            return Err(e);
        },
    }
    proof {
        // the slot regions the allocator recorded are pairwise disjoint, so
        // the inodes' slots are too
        assert forall|k1: int, k2: int|
            0 <= k1 < table.inodes@.len() && 0 <= k2 < table.inodes@.len() && k1 != k2 implies ((
        #[trigger] table.inodes@[k1].meta.inner.nid as int) * 32 + crate::inode::spec_slot_bytes(
            table.inodes@[k1],
        ) <= (#[trigger] table.inodes@[k2].meta.inner.nid as int) * 32 || table.inodes@[
            k2
        ].meta.inner.nid as int * 32 + crate::inode::spec_slot_bytes(table.inodes@[k2])
            <= table.inodes@[k1].meta.inner.nid as int * 32) by {
            let r1 = buf_mgr.regions@[region_base + k1];
            let r2 = buf_mgr.regions@[region_base + k2];
            assert(r1 == (
                table.inodes@[k1].meta.inner.nid * 32,
                crate::utils::spec_round_up(
                    crate::inode::spec_slot_bytes(pre_slot_inodes[k1]),
                    32,
                ),
            ));
            assert(r2 == (
                table.inodes@[k2].meta.inner.nid * 32,
                crate::utils::spec_round_up(
                    crate::inode::spec_slot_bytes(pre_slot_inodes[k2]),
                    32,
                ),
            ));
            if k1 < k2 {
                assert(crate::buffer::region_disjoint(r1, r2));
            } else {
                assert(crate::buffer::region_disjoint(r2, r1));
            }
            vstd::arithmetic::div_mod::lemma_mod_bound(
                crate::inode::spec_slot_bytes(pre_slot_inodes[k1]),
                32,
            );
            vstd::arithmetic::div_mod::lemma_mod_bound(
                crate::inode::spec_slot_bytes(pre_slot_inodes[k2]),
                32,
            );
            assert(crate::inode::nid_only_changed(pre_slot_inodes[k1], table.inodes@[k1]));
            assert(crate::inode::spec_slot_bytes(table.inodes@[k1])
                == crate::inode::spec_slot_bytes(pre_slot_inodes[k1]));
            assert(crate::inode::spec_slot_bytes(table.inodes@[k2])
                == crate::inode::spec_slot_bytes(pre_slot_inodes[k2]));
        }
    }
    if img.data.len() > usize::MAX - 200000 {
        return Err(CodexFsError::IoError);
    }
    match crate::inode::mkfs_dump_inode(&sb, &mut img, &table.inodes) {
        Ok(_) => {},
        Err(e) => {
            return Err(e);
        },
    }
    let ridx = sb.root();
    if ridx >= table.inodes.len() {
        return Err(CodexFsError::FormatError);
    }
    let root_nid = table.inodes[ridx].meta.inner.nid;
    if img.data.len() > usize::MAX - 200000 {
        return Err(CodexFsError::IoError);
    }
    let ghost pre_sb_img = img.data@;
    crate::sb::mkfs_dump_super_block(&sb, &mut img, root_nid);
    proof {
        let rec = sb.to_codexfs_sb_spec(root_nid);
        rec.lemma_encode_len();
        assert(img.data@.subrange(0, 128) =~= rec.spec_encode());
        rec.lemma_round_trip();
        // the superblock record occupies the head region, which the
        // allocator kept apart from every inode slot, so the dumped inode
        // bytes survive this write
        assert(buf_mgr.regions@[0] == (0int, 128int));
        assert forall|j: int|
            0 <= j < table.inodes@.len() implies ((
        #[trigger] table.inodes@[j].meta.inner.nid as int) * 32 + crate::inode::spec_slot_bytes(
            table.inodes@[j],
        ) <= 0 || 0 + 128 <= table.inodes@[j].meta.inner.nid as int * 32) by {
            let rj = buf_mgr.regions@[region_base + j];
            assert(rj == (
                table.inodes@[j].meta.inner.nid * 32,
                crate::utils::spec_round_up(
                    crate::inode::spec_slot_bytes(pre_slot_inodes[j]),
                    32,
                ),
            ));
            assert(crate::buffer::region_disjoint(buf_mgr.regions@[0], rj));
            vstd::arithmetic::div_mod::lemma_mod_bound(
                crate::inode::spec_slot_bytes(pre_slot_inodes[j]),
                32,
            );
        }
        crate::image::lemma_spec_write_untouched(pre_sb_img, 0, rec.spec_encode());
        crate::inode::lemma_dump_claims_preserved(
            pre_sb_img,
            img.data@,
            sb.compress,
            table.inodes@,
            table.inodes@.len() as int,
            0,
            128,
            0,
            128,
        );
        crate::inode::lemma_dir_tail_claims_preserved(
            pre_sb_img,
            img.data@,
            table.inodes@,
            table.inodes@.len() as int,
            0,
            128,
            0,
            128,
        );
    }
    if img.data.len() > usize::MAX - 200000 {
        return Err(CodexFsError::IoError);
    }
    let ghost pre_pad_img = img.data@;
    crate::sb::mkfs_align_block_size(&sb, &mut img);
    proof {
        let rec = sb.to_codexfs_sb_spec(root_nid);
        assert(img.data@.subrange(0, 128) =~= pre_pad_img.subrange(0, 128));
        assert(img.data@.subrange(0, 128) =~= rec.spec_encode());
        rec.lemma_round_trip();
        // padding only appends zero bytes, touching no dumped region
        assert forall|x: int|
            0 <= x < pre_pad_img.len() && !(0 <= x < 0) implies #[trigger] img.data@[x]
            == pre_pad_img[x] by {
            assert(img.data@.subrange(0, pre_pad_img.len() as int) == pre_pad_img);
            assert(img.data@.subrange(0, pre_pad_img.len() as int)[x] == img.data@[x]);
        }
        crate::inode::lemma_dump_claims_preserved(
            pre_pad_img,
            img.data@,
            sb.compress,
            table.inodes@,
            table.inodes@.len() as int,
            0,
            0,
            0,
            0,
        );
        crate::inode::lemma_dir_tail_claims_preserved(
            pre_pad_img,
            img.data@,
            table.inodes@,
            table.inodes@.len() as int,
            0,
            0,
            0,
            0,
        );
    }
    Ok((img, sb, table))
}

} // verus!
