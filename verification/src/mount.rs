use vstd::prelude::*;

verus! {

use crate::error::CodexFsError;
use crate::image::Image;
use crate::inode::{
    file_extents_done, Dentry, Dir, DirInner, File, FileInner, IType, Inode, InodeMeta,
    InodeMetaInner, InodeTable, SymLink, vec_u8_eq,
};
use crate::layout::{
    CodexFsDirent, CodexFsFileType, CodexFsInode, CODEXFS_DIRENT_BYTES, CODEXFS_EXTENT_BYTES,
    CODEXFS_INODE_BYTES,
};
use crate::sb::SuperBlock;

/// The kernel names the root inode 1; every other kernel ino is the nid
/// shifted up by one.
pub fn codexfsfuse_ino_to_nid(root_nid: u64, ino: u64) -> (r: u64)
    requires
        ino >= 1,
    ensures
        r == (if ino == 1 {
            root_nid
        } else {
            (ino - 1) as u64
        }),
{
    if ino == 1 {
        root_nid
    } else {
        ino - 1
    }
}

pub fn codexfsfuse_nid_to_ino(root_nid: u64, nid: u64) -> (r: u64)
    requires
        nid < u64::MAX,
    ensures
        r == (if nid == root_nid {
            1u64
        } else {
            (nid + 1) as u64
        }),
{
    if nid == root_nid {
        1
    } else {
        nid + 1
    }
}

/// The position of the first non-zero byte: the leading zero margin of a
/// right-aligned data block.
pub fn fixup_insize(buf: &Vec<u8>) -> (r: Option<usize>)
    ensures
        r matches Some(i) ==> i < buf@.len() && buf@[i as int] != 0 && (forall|j: int|
            0 <= j < i ==> buf@[j] == 0),
        r is None ==> forall|j: int| 0 <= j < buf@.len() ==> buf@[j] == 0,
{
    let n = buf.len();
    let mut i: usize = 0;
    while i < n
        invariant
            i <= n,
            n == buf@.len(),
            forall|j: int| 0 <= j < i ==> buf@[j] == 0,
        decreases n - i,
    {
        if buf[i] != 0 {
            return Some(i);
        }
        i = i + 1;
    }
    None
}

/// A freshly materialised inode carries exactly what its on-disk record
/// denotes: the decoded header fields, and for regular files of a
/// compressed image the decoded extent records of its tail.
/// The name offset the record after `j` carries, delimiting `j`'s name.
pub open spec fn spec_next_nameoff(img: Seq<u8>, meta: int, j: int) -> int {
    match CodexFsDirent::spec_decode(
        img.subrange(meta + (j + 1) * 12, meta + (j + 1) * 12 + 12),
    ) {
        Some(d2) => d2.nameoff as int,
        None => 0,
    }
}

/// One loaded dentry against the image: dirent record `j` of the table at
/// `meta` decodes to this entry's file type and its name offset, and the
/// bytes from there to the next record's name offset (or to `size`, for
/// the last record) are exactly the entry's name.
pub open spec fn dirent_slot_matches(
    img: Seq<u8>,
    meta: int,
    ndir: int,
    size: int,
    j: int,
    de: crate::inode::Dentry,
) -> bool {
    &&& 0 <= j < ndir
    &&& meta + j * 12 + 12 <= img.len()
    &&& (CodexFsDirent::spec_decode(img.subrange(meta + j * 12, meta + j * 12 + 12))
        matches Some(d) && ({
        let end = if j + 1 < ndir {
            spec_next_nameoff(img, meta, j)
        } else {
            size
        };
        &&& de.file_type == d.file_type
        &&& d.nameoff as int <= end
        &&& meta + end <= img.len()
        &&& de.file_name@ == img.subrange(meta + d.nameoff, meta + end)
    }))
}

/// Every entry of a loaded dentry list is tied to the dirent record of
/// the table at `meta` that `ws` names for it.
pub open spec fn dentries_tied(
    img: Seq<u8>,
    meta: int,
    ndir: int,
    size: int,
    des: Seq<crate::inode::Dentry>,
    ws: Seq<int>,
) -> bool {
    &&& ws.len() == des.len()
    &&& forall|k: int|
        #![trigger des[k]]
        0 <= k < des.len() ==> dirent_slot_matches(img, meta, ndir, size, ws[k], des[k])
}

pub open spec fn loaded_inode_matches_record(
    img: Seq<u8>,
    compress: bool,
    nid: u64,
    node: Inode,
) -> bool {
    let rec = CodexFsInode::spec_decode(img.subrange(nid as int * 32, nid as int * 32 + 32));
    &&& node.meta.ino == rec.ino
    &&& node.meta.uid == rec.uid
    &&& node.meta.gid == rec.gid
    &&& node.meta.mode == rec.mode
    &&& node.meta.inner.nlink == rec.nlink
    &&& node.meta.inner.nid == nid
    &&& (node.itype matches IType::File(f) ==> {
        &&& f.size == rec.size
        &&& f.inner.blk_id == Some(rec.blk_id)
        &&& (compress ==> f.inner.extents@.len() == rec.u && (forall|e: int|
            0 <= e < rec.u ==> f.inner.extents@[e] == crate::layout::CodexFsExtent::spec_decode(
                img.subrange(
                    (nid + 1) as int * 32 + e * 8,
                    (nid + 1) as int * 32 + e * 8 + 8,
                ),
            )))
        &&& (!compress ==> f.inner.blk_off == Some(rec.u as u32))
    })
    &&& (!(node.itype is File) ==> node.meta.inner.meta_size == Some(rec.size))
    &&& crate::layout::CodexFsFileType::spec_from_mode(rec.mode) == Some(node.spec_file_type())
    &&& (node.itype matches IType::Dir(dd) ==> ({
        let meta = (nid + 1) as int * 32;
        &&& meta + 12 <= img.len()
        &&& (CodexFsDirent::spec_decode(img.subrange(meta, meta + 12)) matches Some(f0)
            && (exists|ws: Seq<int>| #[trigger] dentries_tied(
            img,
            meta,
            f0.nameoff as int / 12,
            rec.size as int,
            dd.inner.dentries@,
            ws,
        )))
    }))
}

/// Appending an entry that matches dirent record `j` keeps a dentry list
/// tied to the table.
proof fn lemma_dentries_tied_push(
    img: Seq<u8>,
    meta: int,
    ndir: int,
    size: int,
    des0: Seq<crate::inode::Dentry>,
    ws0: Seq<int>,
    de: crate::inode::Dentry,
    j: int,
)
    requires
        dentries_tied(img, meta, ndir, size, des0, ws0),
        dirent_slot_matches(img, meta, ndir, size, j, de),
    ensures
        dentries_tied(img, meta, ndir, size, des0.push(de), ws0.push(j)),
{
    let des1 = des0.push(de);
    let ws1 = ws0.push(j);
    assert forall|k: int|
        #![trigger des1[k]]
        0 <= k < des1.len() implies dirent_slot_matches(
        img,
        meta,
        ndir,
        size,
        ws1[k],
        des1[k],
    ) by {
        if k < des0.len() {
            assert(des1[k] == des0[k]);
            assert(ws1[k] == ws0[k]);
        } else {
            assert(des1[k] == de);
            assert(ws1[k] == j);
        }
    }
}

/// Parse the inode record in slot `nid` and materialise it with its tail,
/// recursing into directory children.  `depth` bounds the recursion so that
/// a malformed image with a dirent cycle is rejected rather than followed.
#[verifier::loop_isolation(false)]
#[verifier::rlimit(100)]
pub fn fuse_load_inode(
    sb: &SuperBlock,
    img: &Image,
    table: &mut InodeTable,
    nid: u64,
    depth: u32,
) -> (r: Result<usize, CodexFsError>)
    requires
        sb.wf(),
        old(table).wf(),
    ensures
        final(table).wf(),
        final(table).inodes@.len() >= old(table).inodes@.len(),
        r is Err ==> (r == Err::<usize, CodexFsError>(CodexFsError::FormatError) || r
            == Err::<usize, CodexFsError>(CodexFsError::IoError)),
        r matches Ok(idx) ==> idx < final(table).inodes@.len(),
        r matches Ok(idx) ==> (idx >= old(table).inodes@.len()
            ==> loaded_inode_matches_record(
            img.data@,
            sb.compress,
            nid,
            final(table).inodes@[idx as int],
        )),
    decreases depth,
{
    if depth == 0 {
        return Err(CodexFsError::FormatError);
    }
    if nid > u64::MAX / 32 - 100000 {
        return Err(CodexFsError::FormatError);
    }
    let rec_buf = match img.read_exact_at(nid * 32, CODEXFS_INODE_BYTES) {
        Ok(b) => b,
        Err(e) => {
            return Err(e);
        },
    };
    let rec = CodexFsInode::decode(&rec_buf, 0);
    proof {
        assert(rec_buf@.subrange(0, 32) =~= img.data@.subrange(
            nid as int * 32,
            nid as int * 32 + 32,
        ));
    }
    let file_type = match CodexFsFileType::from_mode(rec.mode) {
        Some(t) => t,
        None => {
            return Err(CodexFsError::FormatError);
        },
    };
    if !file_type.is_dir() {
        match table.get_inode(rec.ino) {
            Some(i) => {
                proof {
                    crate::inode::lemma_lookup_bound_pub(table.index@, rec.ino);
                }
                return Ok(i);
            },
            None => {},
        }
    }
    let meta_off: u64 = (nid + 1) * 32;
    if file_type.is_file() {
        let mut extents: Vec<crate::layout::CodexFsExtent> = Vec::new();
        let blk_off: Option<u32>;
        if sb.compress {
            blk_off = None;
            let blks = rec.u as usize;
            let mut e: usize = 0;
            while e < blks
                invariant
                    e <= blks,
                    blks <= u16::MAX,
                    meta_off == (nid + 1) * 32,
                    nid <= u64::MAX / 32 - 100000,
                    extents@.len() == e,
                    forall|p: int|
                        0 <= p < e ==> extents@[p]
                            == crate::layout::CodexFsExtent::spec_decode(
                            img.data@.subrange(
                                (nid + 1) as int * 32 + p * 8,
                                (nid + 1) as int * 32 + p * 8 + 8,
                            ),
                        ),
                decreases blks - e,
            {
                let ebuf = match img.read_exact_at(
                    meta_off + (e as u64) * 8,
                    CODEXFS_EXTENT_BYTES,
                ) {
                    Ok(b) => b,
                    Err(err) => {
                        return Err(err);
                    },
                };
                let ext = crate::layout::CodexFsExtent::decode(&ebuf, 0);
                proof {
                    assert(ebuf@.subrange(0, 8) =~= img.data@.subrange(
                        (nid + 1) as int * 32 + e as int * 8,
                        (nid + 1) as int * 32 + e as int * 8 + 8,
                    ));
                }
                extents.push(ext);
                e = e + 1;
            }
        } else {
            blk_off = Some(rec.u as u32);
        }
        let inode = Inode {
            meta: InodeMeta {
                path: None,
                ino: rec.ino,
                uid: rec.uid,
                gid: rec.gid,
                mode: rec.mode,
                inner: InodeMetaInner { nlink: rec.nlink, nid, meta_size: None },
            },
            itype: IType::File(
                File {
                    size: rec.size,
                    inner: FileInner {
                        blk_id: Some(rec.blk_id),
                        blk_off,
                        extents,
                        content: None,
                    },
                },
            ),
        };
        table.inodes.push(inode);
        let idx = table.inodes.len() - 1;
        register_ino(table, rec.ino, idx);
        return Ok(idx);
    }
    if file_type.is_symlink() {
        let inode = Inode {
            meta: InodeMeta {
                path: None,
                ino: rec.ino,
                uid: rec.uid,
                gid: rec.gid,
                mode: rec.mode,
                inner: InodeMetaInner { nlink: rec.nlink, nid, meta_size: Some(rec.size) },
            },
            itype: IType::SymLink(SymLink { target: None }),
        };
        table.inodes.push(inode);
        let idx = table.inodes.len() - 1;
        register_ino(table, rec.ino, idx);
        return Ok(idx);
    }
    if !file_type.is_dir() {
        // device, fifo and socket records are never written by the builder
        return Err(CodexFsError::FormatError);
    }
    // a directory: parse its dirent table and load the children
    let dbuf = match img.read_exact_at(meta_off, CODEXFS_DIRENT_BYTES) {
        Ok(b) => b,
        Err(e) => {
            return Err(e);
        },
    };
    let first = match CodexFsDirent::decode(&dbuf, 0) {
        Some(d) => d,
        None => {
            return Err(CodexFsError::FormatError);
        },
    };
    let ndir: u16 = first.nameoff / 12;
    if ndir < 2 {
        return Err(CodexFsError::FormatError);
    }
    let mut dirents: Vec<CodexFsDirent> = Vec::new();
    let mut i: u16 = 0;
    while i < ndir
        invariant
            i <= ndir,
            dirents@.len() == i,
            meta_off == (nid + 1) * 32,
            nid <= u64::MAX / 32 - 100000,
            forall|p: int|
                0 <= p < i ==> (meta_off as int + p * 12 + 12 <= img.data@.len()
                    && CodexFsDirent::spec_decode(
                    img.data@.subrange(meta_off as int + p * 12, meta_off as int + p * 12 + 12),
                ) == Some(#[trigger] dirents@[p])),
        decreases ndir - i,
    {
        let b = match img.read_exact_at(
            meta_off + (i as u64) * 12,
            CODEXFS_DIRENT_BYTES,
        ) {
            Ok(b) => b,
            Err(e) => {
                return Err(e);
            },
        };
        let d = match CodexFsDirent::decode(&b, 0) {
            Some(d) => d,
            None => {
                return Err(CodexFsError::FormatError);
            },
        };
        proof {
            assert(b@.subrange(0, 12) =~= img.data@.subrange(
                meta_off as int + i as int * 12,
                meta_off as int + i as int * 12 + 12,
            ));
        }
        dirents.push(d);
        i = i + 1;
    }
    let mut dentries: Vec<Dentry> = Vec::new();
    let ghost mut ws = Seq::<int>::empty();
    let mut child_dir_fixups: Vec<usize> = Vec::new();
    let mut j: usize = 0;
    let ndir_us: usize = ndir as usize;
    while j < ndir_us
        invariant
            j <= ndir_us,
            ndir_us == dirents@.len(),
            ndir_us == ndir,
            sb.wf(),
            table.wf(),
            table.inodes@.len() >= old(table).inodes@.len(),
            meta_off == (nid + 1) * 32,
            nid <= u64::MAX / 32 - 100000,
            forall|k: int|
                0 <= k < dentries@.len() ==> (#[trigger] dentries@[k]).inode_idx
                    < table.inodes@.len(),
            forall|k: int|
                0 <= k < child_dir_fixups@.len() ==> (#[trigger] child_dir_fixups@[k])
                    < table.inodes@.len(),
            dentries_tied(
                img.data@,
                meta_off as int,
                ndir as int,
                rec.size as int,
                dentries@,
                ws,
            ),
        decreases ndir_us - j,
    {
        let ghost entry_dentries = dentries@;
        let ghost entry_ws = ws;
        let startoff = dirents[j].nameoff;
        let endoff: u32 = if j + 1 < ndir_us {
            dirents[j + 1].nameoff as u32
        } else {
            rec.size
        };
        if (startoff as u32) > endoff || endoff - (startoff as u32) > u16::MAX as u32 {
            return Err(CodexFsError::FormatError);
        }
        let name_len: usize = (endoff - startoff as u32) as usize;
        let name = match img.read_exact_at(meta_off + startoff as u64, name_len) {
            Ok(b) => b,
            Err(e) => {
                return Err(e);
            },
        };
        let is_dot = name.len() == 1 && *(&name[0]) == 46u8;
        let is_dotdot = name.len() == 2 && *(&name[0]) == 46u8 && *(&name[1]) == 46u8;
        if !(is_dot || is_dotdot) {
            let child = match fuse_load_inode(sb, img, table, dirents[j].nid, depth - 1) {
                Ok(c) => c,
                Err(e) => {
                    return Err(e);
                },
            };
            let cft = table.inodes[child].file_type();
            if !same_file_type(cft, dirents[j].file_type) {
                return Err(CodexFsError::FormatError);
            }
            if cft.is_dir() {
                child_dir_fixups.push(child);
            }
            dentries.push(Dentry { file_name: name, file_type: cft, inode_idx: child });
            proof {
                let de = dentries@.last();
                assert(dirent_slot_matches(
                    img.data@,
                    meta_off as int,
                    ndir as int,
                    rec.size as int,
                    j as int,
                    de,
                )) by {
                    assert(name@ == img.data@.subrange(
                        meta_off as int + startoff as int,
                        meta_off as int + startoff as int + name_len as int,
                    ));
                    if j + 1 < ndir_us {
                        assert(spec_next_nameoff(img.data@, meta_off as int, j as int)
                            == dirents@[j as int + 1].nameoff as int);
                    }
                }
                lemma_dentries_tied_push(
                    img.data@,
                    meta_off as int,
                    ndir as int,
                    rec.size as int,
                    entry_dentries,
                    entry_ws,
                    de,
                    j as int,
                );
                ws = entry_ws.push(j as int);
                assert(dentries@ == entry_dentries.push(de));
            }
        }
        j = j + 1;
    }
    let ghost final_dentries = dentries@;
    proof {
        assert(dentries_tied(
            img.data@,
            meta_off as int,
            ndir as int,
            rec.size as int,
            final_dentries,
            ws,
        ));
    }
    let inode = Inode {
        meta: InodeMeta {
            path: None,
            ino: rec.ino,
            uid: rec.uid,
            gid: rec.gid,
            mode: rec.mode,
            inner: InodeMetaInner { nlink: rec.nlink, nid, meta_size: Some(rec.size) },
        },
        itype: IType::Dir(Dir { inner: DirInner { parent: None, dentries } }),
    };
    table.inodes.push(inode);
    let idx = table.inodes.len() - 1;
    {
        let ino = &mut table.inodes[idx];
        ino.set_parent(idx);
    }
    proof {
        assert(dbuf@.subrange(0, 12) =~= img.data@.subrange(
            meta_off as int,
            meta_off as int + 12,
        ));
        assert(CodexFsDirent::spec_decode(img.data@.subrange(
            meta_off as int,
            meta_off as int + 12,
        )) == Some(first));
        assert(ndir as int == first.nameoff as int / 12);
        match table.inodes@[idx as int].itype {
            IType::Dir(dx) => {
                assert(dx.inner.dentries@ == final_dentries);
                assert(dentries_tied(
                    img.data@,
                    meta_off as int,
                    first.nameoff as int / 12,
                    rec.size as int,
                    dx.inner.dentries@,
                    ws,
                ));
            },
            _ => {},
        }
        assert(loaded_inode_matches_record(
            img.data@,
            sb.compress,
            nid,
            table.inodes@[idx as int],
        ));
    }
    let mut f: usize = 0;
    let nf = child_dir_fixups.len();
    while f < nf
        invariant
            f <= nf,
            nf == child_dir_fixups@.len(),
            idx < table.inodes@.len(),
            table.wf(),
            table.inodes@.len() >= old(table).inodes@.len(),
            forall|k: int|
                0 <= k < child_dir_fixups@.len() ==> (#[trigger] child_dir_fixups@[k])
                    < table.inodes@.len(),
            loaded_inode_matches_record(img.data@, sb.compress, nid, table.inodes@[idx as int]),
        decreases nf - f,
    {
        let c = child_dir_fixups[f];
        if table.inodes[c].file_type().is_dir() {
            let ino = &mut table.inodes[c];
            ino.set_parent(idx);
        }
        f = f + 1;
    }
    register_ino(table, rec.ino, idx);
    Ok(idx)
}

/// The dirent byte and the loaded child describe the same kind of node.
fn same_file_type(a: CodexFsFileType, b: CodexFsFileType) -> (r: bool)
    ensures
        r == (a == b),
{
    a.to_u8() == b.to_u8()
}

/// Bind an ino to its slot, leaving an existing binding in place.
fn register_ino(table: &mut InodeTable, ino: u32, idx: usize)
    requires
        old(table).wf(),
        idx < old(table).inodes@.len(),
    ensures
        final(table).wf(),
        final(table).inodes == old(table).inodes,
{
    match table.get_inode(ino) {
        Some(_) => {},
        None => {
            table.insert_inode(ino, idx);
        },
    }
}

/// Load the superblock and the whole inode forest of an image; the root's
/// slot is recorded in the session.
pub fn fuse_mount(img: &Image) -> (r: Result<(SuperBlock, InodeTable), CodexFsError>)
    ensures
        r matches Ok(m) ==> {
            &&& m.0.wf()
            &&& m.1.wf()
            &&& m.0.root matches Some(root) && root < m.1.inodes@.len()
            &&& img.data@.len() >= crate::layout::CODEXFS_SB_BYTES
            &&& loaded_inode_matches_record(
                img.data@,
                m.0.compress,
                crate::layout::CodexFsSuperBlock::spec_decode(
                    img.data@.subrange(0, crate::layout::CODEXFS_SB_BYTES as int),
                ).root_nid,
                m.1.inodes@[m.0.root.unwrap() as int],
            )
        },
        r is Err ==> (r == Err::<(SuperBlock, InodeTable), CodexFsError>(
            CodexFsError::FormatError,
        ) || r == Err::<(SuperBlock, InodeTable), CodexFsError>(CodexFsError::IoError)),
{
    let mut sb = match crate::sb::fuse_load_super_block(img) {
        Ok(s) => s,
        Err(e) => {
            return Err(e);
        },
    };
    let sb_bytes = match img.read_exact_at(0, crate::layout::CODEXFS_SB_BYTES) {
        Ok(b) => b,
        Err(e) => {
            return Err(e);
        },
    };
    let rec = crate::layout::CodexFsSuperBlock::decode(&sb_bytes, 0);
    proof {
        assert(sb_bytes@.subrange(0, crate::layout::CODEXFS_SB_BYTES as int) =~= img.data@.subrange(
            0,
            crate::layout::CODEXFS_SB_BYTES as int,
        ));
    }
    let mut table = InodeTable::new();
    let root = match fuse_load_inode(&sb, img, &mut table, rec.root_nid, 64) {
        Ok(i) => i,
        Err(e) => {
            return Err(e);
        },
    };
    sb.set_root(root);
    Ok((sb, table))
}

/// The bytes of a symlink's target, read from its tail: exactly the
/// `meta_size` image bytes that begin at the inode's tail offset.
pub fn fuse_readlink(
    sb: &SuperBlock,
    img: &Image,
    inode: &Inode,
) -> (r: Result<Vec<u8>, CodexFsError>)
    requires
        inode.meta.inner.meta_size is Some,
        inode.meta.inner.nid + 1 <= u64::MAX / 32,
    ensures
        r matches Ok(v) ==> {
            &&& v@.len() == inode.meta.inner.meta_size.unwrap()
            &&& v@ == img.data@.subrange(
                (inode.meta.inner.nid + 1) * 32,
                (inode.meta.inner.nid + 1) * 32 + inode.meta.inner.meta_size.unwrap(),
            )
        },
        r is Ok <==> (inode.meta.inner.meta_size.unwrap() <= u32::MAX - 64 && (
        inode.meta.inner.nid + 1) * 32 + inode.meta.inner.meta_size.unwrap()
            <= img.data@.len()),
{
    let msize = inode.meta.meta_size();
    if msize > u32::MAX - 64 {
        return Err(CodexFsError::FormatError);
    }
    let off = inode.meta.inode_meta_off();
    img.read_exact_at(off, msize as usize)
}

/// Find the slot a name denotes inside a directory.
pub fn lookup_child(inodes: &Vec<Inode>, dir: &Dir, name: &Vec<u8>) -> (r: Option<usize>)
    ensures
        r matches Some(i) ==> exists|k: int|
            0 <= k < dir.inner.dentries@.len() && (#[trigger] dir.inner.dentries@[k]).file_name@
                == name@ && dir.inner.dentries@[k].inode_idx == i,
        r is None ==> forall|k: int|
            0 <= k < dir.inner.dentries@.len() ==> (#[trigger] dir.inner.dentries@[k]).file_name@
                != name@,
{
    let n = dir.inner.dentries.len();
    let mut k: usize = 0;
    while k < n
        invariant
            k <= n,
            n == dir.inner.dentries@.len(),
            forall|j: int|
                0 <= j < k ==> (#[trigger] dir.inner.dentries@[j]).file_name@ != name@,
        decreases n - k,
    {
        if vec_u8_eq(&dir.inner.dentries[k].file_name, name) {
            return Some(dir.inner.dentries[k].inode_idx);
        }
        k = k + 1;
    }
    None
}

/// Read a byte range of a regular file from an uncompressed image: the raw
/// bytes sit at the file's recorded block and offset.
pub fn fuse_read_inode_file(
    sb: &SuperBlock,
    img: &Image,
    inode: &Inode,
    off: u32,
    len: u32,
) -> (r: Result<Vec<u8>, CodexFsError>)
    requires
        sb.wf(),
        inode.itype matches IType::File(f) && off <= f.size && f.inner.blk_id is Some
            && f.inner.blk_off is Some,
    ensures
        r matches Ok(v) ==> (inode.itype matches IType::File(f) && {
            &&& v@.len() == vstd::math::min(len as int, f.size - off)
            &&& v@ == img.data@.subrange(
                f.inner.blk_id.unwrap() * sb.spec_blksz() + f.inner.blk_off.unwrap() + off,
                f.inner.blk_id.unwrap() * sb.spec_blksz() + f.inner.blk_off.unwrap() + off
                    + v@.len(),
            )
        }),
        r is Ok <==> (inode.itype matches IType::File(f)
            && f.inner.blk_id.unwrap() * sb.spec_blksz() + f.inner.blk_off.unwrap() + off
            + vstd::math::min(len as int, f.size - off) <= img.data@.len()),
{
    let f = match &inode.itype {
        IType::File(f) => f,
        _ => {
            return Err(CodexFsError::FormatError);
        },
    };
    let blk_id = match f.inner.blk_id {
        Some(b) => b,
        None => {
            return Err(CodexFsError::FormatError);
        },
    };
    let blk_off = match f.inner.blk_off {
        Some(b) => b,
        None => {
            return Err(CodexFsError::FormatError);
        },
    };
    let len_left: u32 = if len < f.size - off {
        len
    } else {
        f.size - off
    };
    let base: u64 = crate::blk_id_to_addr(sb, blk_id);
    proof {
        vstd::arithmetic::power2::lemma2_to64();
        if sb.blksz_bits < 16 {
            vstd::arithmetic::power2::lemma_pow2_strictly_increases(sb.blksz_bits as nat, 16);
        }
        assert(blk_id as int * sb.spec_blksz() <= (u32::MAX as int) * 65536)
            by (nonlinear_arith)
            requires
                blk_id as int <= u32::MAX as int,
                0 <= sb.spec_blksz() <= 65536,
        ;
    }
    let pos: u64 = base + blk_off as u64 + off as u64;
    img.read_exact_at(pos, len_left as usize)
}


/// The first non-zero byte's position in a block: its leading zero margin.
pub open spec fn spec_first_nonzero(s: Seq<u8>) -> int
    decreases s.len(),
{
    if s.len() == 0 {
        0
    } else if s[0] != 0 {
        0
    } else {
        1 + spec_first_nonzero(s.drop_first())
    }
}

proof fn lemma_first_nonzero_unique(s: Seq<u8>, m: int)
    requires
        0 <= m < s.len(),
        s[m] != 0,
        forall|j: int| 0 <= j < m ==> s[j] == 0,
    ensures
        spec_first_nonzero(s) == m,
    decreases m,
{
    if m > 0 {
        assert forall|j: int| 0 <= j < m - 1 implies s.drop_first()[j] == 0 by {
            assert(s.drop_first()[j] == s[j + 1]);
        }
        assert(s.drop_first()[m - 1] == s[m]);
        lemma_first_nonzero_unique(s.drop_first(), m - 1);
    }
}

/// The compressed payload length of a data block: the superblock's value
/// for the end block, the room past the zero margin for every other.
pub open spec fn spec_comp_size(
    img: Seq<u8>,
    bsz: int,
    blk: int,
    end_id: int,
    end_sz: int,
) -> int {
    if blk == end_id {
        end_sz
    } else {
        bsz - spec_first_nonzero(img.subrange(blk * bsz, blk * bsz + bsz))
    }
}

/// The end of extent `i`'s byte range in the file: the next extent's
/// offset, or the file's size for the last extent.
pub open spec fn spec_ext_end(es: Seq<crate::layout::CodexFsExtent>, i: int, size: int) -> int {
    if i + 1 < es.len() {
        es[i + 1].off as int
    } else {
        size
    }
}

/// What a correct read owes for extent `i` of the range `[off, off+rlen)`:
/// whenever the trailing `cs` bytes of the extent's block are the complete
/// compressed stream of a fragment, the read's bytes for this extent equal
/// that fragment's bytes, starting at the extent's fragment offset.
pub open spec fn extent_read_ok(
    img: Seq<u8>,
    bsz: int,
    blk: int,
    cs: int,
    es: Seq<crate::layout::CodexFsExtent>,
    i: int,
    size: int,
    off: int,
    rlen: int,
    v: Seq<u8>,
) -> bool {
    let lo = if (es[i].off as int) > off {
        es[i].off as int
    } else {
        off
    };
    let hi_raw = spec_ext_end(es, i, size);
    let hi = if hi_raw < off + rlen {
        hi_raw
    } else {
        off + rlen
    };
    lo < hi ==> forall|frag: Seq<u8>, lvl: u32|
        img.subrange(blk * bsz + (bsz - cs), blk * bsz + bsz) == #[trigger] crate::compress::spec_lzma_enc(
            frag,
            lvl,
        ) ==> {
            let src = es[i].frag_off + (lo - es[i].off);
            &&& src + (hi - lo) <= frag.len()
            &&& v.subrange(lo - off, hi - off) == frag.subrange(src, src + (hi - lo))
        }
}

/// Overwrite `buf[dst .. dst+cnt]` with `src_vec[src .. src+cnt]`.
#[verifier::loop_isolation(false)]
fn splice_into(buf: &mut Vec<u8>, dst: usize, src_vec: &Vec<u8>, src: usize, cnt: usize)
    requires
        dst + cnt <= old(buf)@.len(),
        src + cnt <= src_vec@.len(),
    ensures
        final(buf)@.len() == old(buf)@.len(),
        forall|j: int| 0 <= j < dst ==> final(buf)@[j] == old(buf)@[j],
        forall|j: int|
            dst + cnt <= j < old(buf)@.len() ==> final(buf)@[j] == old(buf)@[j],
        final(buf)@.subrange(dst as int, dst as int + cnt as int) == src_vec@.subrange(
            src as int,
            src as int + cnt as int,
        ),
{
    let btotal: usize = buf.len();
    let stotal: usize = src_vec.len();
    let ghost pre = buf@;
    let mut q: usize = 0;
    proof {
        assert(buf@.subrange(dst as int, dst as int) =~= src_vec@.subrange(
            src as int,
            src as int,
        ));
    }
    while q < cnt
        invariant
            q <= cnt,
            btotal == buf@.len(),
            stotal == src_vec@.len(),
            dst + cnt <= btotal,
            src + cnt <= stotal,
            buf@.len() == pre.len(),
            forall|j: int| 0 <= j < dst ==> buf@[j] == pre[j],
            forall|j: int| dst + q <= j < buf@.len() ==> buf@[j] == pre[j],
            buf@.subrange(dst as int, dst as int + q as int) == src_vec@.subrange(
                src as int,
                src as int + q as int,
            ),
        decreases cnt - q,
    {
        let ghost bprev = buf@;
        buf[dst + q] = src_vec[src + q];
        proof {
            assert(buf@ == bprev.update(dst + q, src_vec@[src + q]));
            assert(buf@.subrange(dst as int, dst as int + q + 1) =~= bprev.subrange(
                dst as int,
                dst as int + q as int,
            ).push(src_vec@[src + q]));
            assert(src_vec@.subrange(src as int, src as int + q + 1) =~= src_vec@.subrange(
                src as int,
                src as int + q as int,
            ).push(src_vec@[src + q]));
        }
        q = q + 1;
    }
}

/// Read one data block and decode its right-aligned payload: the
/// superblock's recorded length bounds the end block's payload, the zero
/// margin bounds every other.  Whatever fragment the payload is the
/// complete compressed stream of, the result is exactly that fragment.
#[verifier::loop_isolation(false)]
#[verifier::rlimit(100)]
fn read_block_fragment(sb: &SuperBlock, img: &Image, blk_id: u32) -> (r: Result<
    Vec<u8>,
    CodexFsError,
>)
    requires
        sb.wf(),
    ensures
        r matches Ok(out) ==> {
            let gbsz = sb.spec_blksz();
            let cs = spec_comp_size(
                img.data@,
                gbsz,
                blk_id as int,
                sb.end_data_blk_id as int,
                sb.end_data_blk_sz as int,
            );
            &&& 0 < cs <= gbsz
            &&& forall|frag: Seq<u8>, lvl: u32|
                img.data@.subrange(
                    (blk_id as int) * gbsz + (gbsz - cs),
                    (blk_id as int) * gbsz + gbsz,
                ) == #[trigger] crate::compress::spec_lzma_enc(frag, lvl) ==> out@ == frag
        },
{
    let bsz: u32 = sb.blksz();
    let ghost gbsz = sb.spec_blksz();
    let ghost gblk = blk_id as int;
    let input = match img.read_exact_at(crate::blk_id_to_addr(sb, blk_id), bsz as usize) {
        Ok(b) => b,
        Err(err) => {
            return Err(err);
        },
    };
    proof {
        assert(input@ == img.data@.subrange(gblk * gbsz, gblk * gbsz + gbsz));
    }
    let is_end: bool = sb.end_data_blk_id == blk_id;
    let comp_size: u32;
    if is_end {
        comp_size = sb.end_data_blk_sz;
    } else {
        match fixup_insize(&input) {
            Some(m) => {
                proof {
                    lemma_first_nonzero_unique(input@, m as int);
                }
                comp_size = bsz - (m as u32);
            },
            None => {
                return Err(CodexFsError::FormatError);
            },
        }
    }
    if comp_size > bsz || comp_size == 0 {
        return Err(CodexFsError::FormatError);
    }
    proof {
        assert(comp_size as int == spec_comp_size(
            img.data@,
            gbsz,
            gblk,
            sb.end_data_blk_id as int,
            sb.end_data_blk_sz as int,
        ));
    }
    let margin: usize = (bsz - comp_size) as usize;
    let mut comp: Vec<u8> = Vec::new();
    let mut p: usize = margin;
    proof {
        assert(input@.subrange(margin as int, margin as int) =~= Seq::<u8>::empty());
    }
    while p < bsz as usize
        invariant
            margin <= p <= bsz,
            input@.len() == bsz,
            comp@ == input@.subrange(margin as int, p as int),
        decreases bsz as int - p,
    {
        proof {
            assert(input@.subrange(margin as int, p + 1) =~= input@.subrange(
                margin as int,
                p as int,
            ).push(input@[p as int]));
        }
        comp.push(input[p]);
        p = p + 1;
    }
    proof {
        assert(comp@ =~= img.data@.subrange(gblk * gbsz + (gbsz - comp_size), gblk * gbsz + gbsz));
    }
    crate::compress::lzma_decompress(&comp)
}

/// Read a byte range of a regular file from a compressed image: find the
/// covering extents, decode each extent's block (one complete compressed
/// fragment, right-aligned), and splice the requested bytes together.  The
/// returned buffer is `len` bytes, the tail left zero when the range runs
/// past the end of the file.  For a well-formed extent table the result is
/// pinned per extent: the bytes come from the fragment whose compressed
/// stream sits at the tail of the extent's block (`extent_read_ok`).
#[verifier::loop_isolation(false)]
#[verifier::rlimit(100)]
pub fn fuse_read_inode_file_z(
    sb: &SuperBlock,
    img: &Image,
    inode: &Inode,
    off: u32,
    len: u32,
) -> (r: Result<Vec<u8>, CodexFsError>)
    requires
        sb.wf(),
        inode.itype matches IType::File(f) && off <= f.size && f.inner.blk_id is Some,
    ensures
        r matches Ok(v) ==> v@.len() == len,
        (inode.itype matches IType::File(f) && {
            &&& file_extents_done(f.inner.extents@, f.size as int)
            &&& f.inner.extents@.len() > 0
        }) ==> (r matches Ok(v) ==> forall|i: int|
            0 <= i < inode.itype->File_0.inner.extents@.len() ==> #[trigger] extent_read_ok(
                img.data@,
                sb.spec_blksz(),
                inode.itype->File_0.inner.blk_id.unwrap() + i,
                spec_comp_size(
                    img.data@,
                    sb.spec_blksz(),
                    inode.itype->File_0.inner.blk_id.unwrap() + i,
                    sb.end_data_blk_id as int,
                    sb.end_data_blk_sz as int,
                ),
                inode.itype->File_0.inner.extents@,
                i,
                inode.itype->File_0.size as int,
                off as int,
                vstd::math::min(len as int, inode.itype->File_0.size - off),
                v@,
            )),
{
    let f = match &inode.itype {
        IType::File(ff) => ff,
        _ => {
            return Err(CodexFsError::FormatError);
        },
    };
    let blk0 = match f.inner.blk_id {
        Some(b) => b,
        None => {
            return Err(CodexFsError::FormatError);
        },
    };
    let bsz: u32 = sb.blksz();
    let ghost es = f.inner.extents@;
    let ghost gsize = f.size as int;
    let ghost goff = off as int;
    let ghost gbsz = sb.spec_blksz();
    let ghost gblk0 = blk0 as int;
    let ghost gend_id = sb.end_data_blk_id as int;
    let ghost gend_sz = sb.end_data_blk_sz as int;
    let ghost wfc = file_extents_done(es, gsize) && es.len() > 0;
    let rlen: u32 = if len < f.size - off {
        len
    } else {
        f.size - off
    };
    let ghost grlen = rlen as int;
    let mut len_left: u32 = rlen;
    let mut buf: Vec<u8> = crate::sb::alloc_zero_vec(len as usize);
    if len_left == 0 {
        proof {
            if wfc {
                assert forall|i: int| 0 <= i < es.len() implies #[trigger] extent_read_ok(
                    img.data@,
                    gbsz,
                    gblk0 + i,
                    spec_comp_size(img.data@, gbsz, gblk0 + i, gend_id, gend_sz),
                    es,
                    i,
                    gsize,
                    goff,
                    grlen,
                    buf@,
                ) by {}
            }
        }
        return Ok(buf);
    }
    let ne = f.inner.extents.len();
    if ne == 0 || ne > u32::MAX as usize {
        return Err(CodexFsError::FormatError);
    }
    // the last extent whose file offset does not exceed `off`
    let mut i: usize = 0;
    let mut scan: usize = 0;
    while scan < ne
        invariant
            scan <= ne,
            ne == es.len(),
            i < ne,
            i == 0 || es[i as int].off <= off,
            forall|k: int| 0 <= k < scan && es[k].off <= off ==> k <= i,
        decreases ne - scan,
    {
        if f.inner.extents[scan].off <= off {
            i = scan;
        }
        scan = scan + 1;
    }
    if f.inner.extents[i].off > off {
        return Err(CodexFsError::FormatError);
    }
    proof {
        // later extents begin past the requested offset
        assert forall|k: int| (i as int) < k < es.len() implies es[k].off as int > goff by {
            if es[k].off as int <= goff {
                assert(k <= i);
            }
        }
    }
    while i < ne
        invariant
            i <= ne,
            ne == es.len(),
            buf@.len() == len,
            len_left <= rlen,
            len_left > 0,
            rlen == grlen,
            wfc ==> (len_left > 0 ==> {
                &&& i < ne
                &&& goff + grlen - len_left == (if (es[i as int].off as int) > goff {
                    es[i as int].off as int
                } else {
                    goff
                })
                &&& forall|k: int| (i as int) < k < es.len() ==> es[k].off as int > goff
            }),
            wfc ==> (forall|k: int|
                0 <= k < i ==> #[trigger] extent_read_ok(
                    img.data@,
                    gbsz,
                    gblk0 + k,
                    spec_comp_size(img.data@, gbsz, gblk0 + k, gend_id, gend_sz),
                    es,
                    k,
                    gsize,
                    goff,
                    grlen,
                    buf@,
                )),
        decreases ne - i,
    {
        let e_off: u32 = f.inner.extents[i].off;
        let e_frag: u32 = f.inner.extents[i].frag_off;
        if blk0 > u32::MAX - (i as u32) {
            return Err(CodexFsError::FormatError);
        }
        let blk_id: u32 = blk0 + (i as u32);
        let output = match read_block_fragment(sb, img, blk_id) {
            Ok(o) => o,
            Err(err) => {
                return Err(err);
            },
        };
        let ghost comp_size = spec_comp_size(
            img.data@,
            gbsz,
            gblk0 + i,
            gend_id,
            gend_sz,
        );
        // how much decompressed data this extent accounts for
        let needed: u32 = if i + 1 < ne {
            if f.inner.extents[i + 1].off < e_off {
                return Err(CodexFsError::FormatError);
            }
            f.inner.extents[i + 1].off - e_off
        } else {
            if f.size < e_off {
                return Err(CodexFsError::FormatError);
            }
            f.size - e_off
        };
        let ghost pre_buf = buf@;
        let ghost glo: int = if (e_off as int) > goff {
            e_off as int
        } else {
            goff
        };
        let ghost ghi_raw: int = spec_ext_end(es, i as int, gsize);
        let ghost ghi: int = if ghi_raw < goff + grlen {
            ghi_raw
        } else {
            goff + grlen
        };
        let take: u32;
        let dst_start: usize;
        let src_start: usize;
        if off >= e_off {
            let skip: u32 = off - e_off;
            if needed < skip {
                return Err(CodexFsError::FormatError);
            }
            let avail: u32 = needed - skip;
            take = if len_left < avail {
                len_left
            } else {
                avail
            };
            if e_frag > u32::MAX - skip {
                return Err(CodexFsError::FormatError);
            }
            src_start = (e_frag + skip) as usize;
            dst_start = 0;
        } else {
            let dst_start_w: u32 = e_off - off;
            if dst_start_w > len {
                return Err(CodexFsError::FormatError);
            }
            take = if len_left < needed {
                len_left
            } else {
                needed
            };
            if take > len - dst_start_w {
                return Err(CodexFsError::FormatError);
            }
            dst_start = dst_start_w as usize;
            src_start = e_frag as usize;
        }
        if src_start > output.len() || take as usize > output.len() - src_start {
            return Err(CodexFsError::FormatError);
        }
        proof {
            if wfc {
                assert(glo == goff + grlen - len_left);
                assert(dst_start as int == glo - goff);
                assert(ghi - glo == take as int) by {
                    if i + 1 < ne {
                        assert(ghi_raw == es[i as int + 1].off);
                    } else {
                        assert(ghi_raw == gsize);
                    }
                }
                if (e_off as int) > goff {
                    // a later extent starts its fragment: the sharing rule
                    // makes its fragment offset zero
                    assert(es[i as int].off == 0 || es[i as int].frag_off == 0);
                    assert(e_frag == 0);
                }
                assert(src_start as int == es[i as int].frag_off + (glo - es[i as int].off));
            }
        }
        splice_into(&mut buf, dst_start, &output, src_start, take as usize);
        proof {
            if wfc {
                // the bytes just placed satisfy this extent's claim, for
                // every fragment the block's payload could encode
                assert forall|frag: Seq<u8>, lvl: u32|
                    img.data@.subrange(
                        (gblk0 + i) * gbsz + (gbsz - comp_size),
                        (gblk0 + i) * gbsz + gbsz,
                    ) == #[trigger] crate::compress::spec_lzma_enc(frag, lvl) implies {
                    &&& src_start + (ghi - glo) <= frag.len()
                    &&& buf@.subrange(glo - goff, ghi - goff) == frag.subrange(
                        src_start as int,
                        src_start + (ghi - glo),
                    )
                } by {
                    assert(output@ == frag);
                    assert(buf@.subrange(dst_start as int, dst_start as int + take as int)
                        == output@.subrange(
                        src_start as int,
                        src_start as int + take as int,
                    ));
                }
                assert(extent_read_ok(
                    img.data@,
                    gbsz,
                    gblk0 + i,
                    spec_comp_size(img.data@, gbsz, gblk0 + i, gend_id, gend_sz),
                    es,
                    i as int,
                    gsize,
                    goff,
                    grlen,
                    buf@,
                ));
                // earlier extents' claims survive: their ranges end before
                // the bytes written here
                assert forall|k: int|
                    0 <= k < i implies #[trigger] extent_read_ok(
                    img.data@,
                    gbsz,
                    gblk0 + k,
                    spec_comp_size(img.data@, gbsz, gblk0 + k, gend_id, gend_sz),
                    es,
                    k,
                    gsize,
                    goff,
                    grlen,
                    buf@,
                ) by {
                    let cs_k = spec_comp_size(img.data@, gbsz, gblk0 + k, gend_id, gend_sz);
                    assert(extent_read_ok(
                        img.data@,
                        gbsz,
                        gblk0 + k,
                        cs_k,
                        es,
                        k,
                        gsize,
                        goff,
                        grlen,
                        pre_buf,
                    ));
                    let lo_k = if (es[k].off as int) > goff {
                        es[k].off as int
                    } else {
                        goff
                    };
                    let hi_raw_k = spec_ext_end(es, k, gsize);
                    let hi_k = if hi_raw_k < goff + grlen {
                        hi_raw_k
                    } else {
                        goff + grlen
                    };
                    if lo_k < hi_k {
                        assert(hi_raw_k == es[k + 1].off);
                        assert(es[k + 1].off as int <= es[i as int].off as int) by {
                            if k + 1 < i {
                                assert(es[k + 1].off < es[i as int].off);
                            }
                        }
                        assert(hi_k <= glo);
                        assert(buf@.subrange(lo_k - goff, hi_k - goff) =~= pre_buf.subrange(
                            lo_k - goff,
                            hi_k - goff,
                        ));
                        assert forall|frag: Seq<u8>, lvl: u32|
                            img.data@.subrange(
                                (gblk0 + k) * gbsz + (gbsz - cs_k),
                                (gblk0 + k) * gbsz + gbsz,
                            ) == #[trigger] crate::compress::spec_lzma_enc(frag, lvl) implies {
                            let src_k = es[k].frag_off + (lo_k - es[k].off);
                            &&& src_k + (hi_k - lo_k) <= frag.len()
                            &&& buf@.subrange(lo_k - goff, hi_k - goff) == frag.subrange(
                                src_k,
                                src_k + (hi_k - lo_k),
                            )
                        } by {
                            assert(pre_buf.subrange(lo_k - goff, hi_k - goff) == frag.subrange(
                                es[k].frag_off + (lo_k - es[k].off),
                                es[k].frag_off + (lo_k - es[k].off) + (hi_k - lo_k),
                            ));
                        }
                    }
                }
            }
        }
        len_left = len_left - take;
        if len_left == 0 {
            proof {
                if wfc {
                    assert forall|k: int|
                        0 <= k < es.len() implies #[trigger] extent_read_ok(
                        img.data@,
                        gbsz,
                        gblk0 + k,
                        spec_comp_size(img.data@, gbsz, gblk0 + k, gend_id, gend_sz),
                        es,
                        k,
                        gsize,
                        goff,
                        grlen,
                        buf@,
                    ) by {
                        if k > i {
                            assert(es[k].off as int >= spec_ext_end(es, i as int, gsize));
                            assert(es[k].off as int >= goff + grlen);
                        }
                    }
                }
            }
            return Ok(buf);
        }
        i = i + 1;
        proof {
            if wfc {
                assert(goff + grlen - len_left == ghi);
                assert(i < ne) by {
                    if i == ne {
                        assert(ghi_raw == gsize);
                        assert(ghi == goff + grlen);
                    }
                }
                assert(es[i as int].off as int == spec_ext_end(es, i - 1, gsize));
            }
        }
    }
    proof {
        if wfc {
            assert(len_left > 0);
            assert(false);
        }
    }
    Ok(buf)
}

/// Build/mount agreement for the superblock: an image whose head decodes to
/// the record a build session wrote hands the mount session the same
/// geometry, compression flag and end-block bookkeeping.  With the record
/// codec round trip this ties `mkfs_build_image` to `fuse_load_super_block`.
pub proof fn lemma_build_mount_superblock_agree(
    img: Seq<u8>,
    built: SuperBlock,
    root_nid: u64,
    mounted: SuperBlock,
)
    requires
        img.len() >= crate::layout::CODEXFS_SB_BYTES,
        crate::layout::CodexFsSuperBlock::spec_decode(
            img.subrange(0, crate::layout::CODEXFS_SB_BYTES as int),
        ) == built.to_codexfs_sb_spec(root_nid),
        ({
            let rec = crate::layout::CodexFsSuperBlock::spec_decode(
                img.subrange(0, crate::layout::CODEXFS_SB_BYTES as int),
            );
            &&& mounted.islot_bits == rec.islot_bits
            &&& mounted.blksz_bits == rec.blksz_bits
            &&& mounted.end_data_blk_id == rec.end_data_blk_id
            &&& mounted.end_data_blk_sz == rec.end_data_blk_sz
            &&& mounted.compress == rec.flags.spec_compressed()
        }),
    ensures
        mounted.blksz_bits == built.blksz_bits,
        mounted.islot_bits == built.islot_bits,
        mounted.end_data_blk_id == built.end_data_blk_id,
        mounted.end_data_blk_sz == built.end_data_blk_sz,
        mounted.compress == built.compress,
{
    let rec = built.to_codexfs_sb_spec(root_nid);
    if built.compress {
        assert(rec.flags.spec_compressed());
    } else {
        assert(!rec.flags.spec_compressed());
    }
}

} // verus!
