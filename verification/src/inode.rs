use vstd::prelude::*;

verus! {

use crate::layout::{CodexFsExtent, CodexFsFileType, CodexFsInode};

/// The mutable part of an inode's common metadata: the link count, the
/// inode-slot id once allocated, and the byte length of the variable tail.
pub struct InodeMetaInner {
    pub nlink: u16,
    pub nid: u64,
    pub meta_size: Option<u32>,
}

/// Metadata every inode carries, whatever its kind.  `path` is set only on
/// inodes built from a source tree.
pub struct InodeMeta {
    pub path: Option<Vec<u8>>,
    pub ino: u32,
    pub uid: u16,
    pub gid: u16,
    pub mode: u16,
    pub inner: InodeMetaInner,
}

impl InodeMeta {
    pub fn path(&self) -> (r: &Vec<u8>)
        requires
            self.path is Some,
        ensures
            r == self.path.unwrap(),
    {
        match &self.path {
            Some(p) => p,
            None => unreached(),
        }
    }

    /// Byte offset of this inode's record slot.
    pub fn inode_off(&self) -> (r: u64)
        requires
            self.inner.nid * 32 <= u64::MAX,
        ensures
            r == self.inner.nid * 32,
    {
        crate::nid_to_inode_off(self.inner.nid)
    }

    /// Byte offset of this inode's variable tail, one slot past the record.
    pub fn inode_meta_off(&self) -> (r: u64)
        requires
            (self.inner.nid + 1) * 32 <= u64::MAX,
        ensures
            r == (self.inner.nid + 1) * 32,
    {
        crate::nid_to_inode_meta_off(self.inner.nid)
    }

    pub fn meta_size(&self) -> (r: u32)
        requires
            self.inner.meta_size is Some,
        ensures
            r == self.inner.meta_size.unwrap(),
    {
        match self.inner.meta_size {
            Some(s) => s,
            None => unreached(),
        }
    }

    pub fn set_meta_size(&mut self, size: u32)
        ensures
            *final(self) == (InodeMeta {
                inner: InodeMetaInner { meta_size: Some(size), ..old(self).inner },
                ..*old(self)
            }),
    {
        self.inner.meta_size = Some(size);
    }

    /// One more path refers to this inode.
    pub fn inc_nlink(&mut self)
        requires
            old(self).inner.nlink < u16::MAX,
        ensures
            *final(self) == (InodeMeta {
                inner: InodeMetaInner {
                    nlink: (old(self).inner.nlink + 1) as u16,
                    ..old(self).inner
                },
                ..*old(self)
            }),
    {
        self.inner.nlink = self.inner.nlink + 1;
    }
}

/// Build- and mount-side state of a regular file inode.
pub struct FileInner {
    pub blk_id: Option<u32>,
    pub blk_off: Option<u32>,
    pub extents: Vec<CodexFsExtent>,
    pub content: Option<Vec<u8>>,
}

pub struct File {
    pub size: u32,
    pub inner: FileInner,
}

/// A directory entry: a child's name, kind, and slot in the inode table.
pub struct Dentry {
    pub file_name: Vec<u8>,
    pub file_type: CodexFsFileType,
    pub inode_idx: usize,
}

impl Dentry {
    pub fn new_name(file_name: Vec<u8>, file_type: CodexFsFileType, inode_idx: usize) -> (r:
        Dentry)
        ensures
            r.file_name == file_name,
            r.file_type == file_type,
            r.inode_idx == inode_idx,
    {
        Dentry { file_name, file_type, inode_idx }
    }
}

pub struct DirInner {
    /// Slot of the parent directory; the root names itself.
    pub parent: Option<usize>,
    pub dentries: Vec<Dentry>,
}

pub struct Dir {
    pub inner: DirInner,
}

pub struct SymLink {
    /// The link target, held on build-side inodes only.
    pub target: Option<Vec<u8>>,
}

/// The kind-specific part of an inode.
pub enum IType {
    File(File),
    Dir(Dir),
    SymLink(SymLink),
}

pub struct Inode {
    pub meta: InodeMeta,
    pub itype: IType,
}

impl Inode {
    pub fn file_type(&self) -> (r: CodexFsFileType)
        ensures
            r == self.spec_file_type(),
    {
        match self.itype {
            IType::File(_) => CodexFsFileType::File,
            IType::Dir(_) => CodexFsFileType::Dir,
            IType::SymLink(_) => CodexFsFileType::Symlink,
        }
    }

    pub open spec fn spec_file_type(self) -> CodexFsFileType {
        match self.itype {
            IType::File(_) => CodexFsFileType::File,
            IType::Dir(_) => CodexFsFileType::Dir,
            IType::SymLink(_) => CodexFsFileType::Symlink,
        }
    }

    pub fn downcast_file_ref(&self) -> (r: Option<&File>)
        ensures
            r is Some <==> self.itype is File,
            r matches Some(f) ==> self.itype == IType::File(*f),
    {
        match &self.itype {
            IType::File(f) => Some(f),
            _ => None,
        }
    }

    pub fn downcast_dir_ref(&self) -> (r: Option<&Dir>)
        ensures
            r is Some <==> self.itype is Dir,
            r matches Some(d) ==> self.itype == IType::Dir(*d),
    {
        match &self.itype {
            IType::Dir(d) => Some(d),
            _ => None,
        }
    }

    /// The parent slot of a directory inode.
    pub fn parent(&self) -> (r: usize)
        requires
            self.itype matches IType::Dir(d) && d.inner.parent is Some,
        ensures
            self.itype matches IType::Dir(d) && r == d.inner.parent.unwrap(),
    {
        match &self.itype {
            IType::Dir(d) => match d.inner.parent {
                Some(p) => p,
                None => unreached(),
            },
            _ => unreached(),
        }
    }

    pub fn set_parent(&mut self, parent: usize)
        requires
            old(self).itype is Dir,
        ensures
            final(self).meta == old(self).meta,
            final(self).itype is Dir,
            (final(self).itype matches IType::Dir(d2) ==> old(self).itype matches IType::Dir(d)
                && d2.inner.parent == Some(parent) && d2.inner.dentries == d.inner.dentries),
    {
        match &mut self.itype {
            IType::Dir(d) => {
                d.inner.parent = Some(parent);
            },
            _ => {},
        }
    }

    pub fn add_dentry(&mut self, dentry: Dentry)
        requires
            old(self).itype is Dir,
        ensures
            final(self).meta == old(self).meta,
            final(self).itype is Dir,
            (final(self).itype matches IType::Dir(d2) ==> old(self).itype matches IType::Dir(d)
                && d2.inner.parent == d.inner.parent && d2.inner.dentries@ == d.inner.dentries@.push(
                dentry,
            )),
    {
        match &mut self.itype {
            IType::Dir(d) => {
                d.inner.dentries.push(dentry);
            },
            _ => {},
        }
    }

    /// Append an extent to a regular file and say whether more of the file
    /// remains after it: `Some(())` while `off + len` has not reached the
    /// file's size, `None` exactly when it has.
    pub fn push_extent(&mut self, off: u32, len: u32, frag_off: u32) -> (r: Option<()>)
        requires
            old(self).itype matches IType::File(f) && off + len <= f.size,
        ensures
            final(self).meta == old(self).meta,
            final(self).itype is File,
            (final(self).itype matches IType::File(f2) ==> old(self).itype matches IType::File(
                f,
            ) && {
                &&& f2.size == f.size
                &&& f2.inner.blk_id == f.inner.blk_id
                &&& f2.inner.blk_off == f.inner.blk_off
                &&& f2.inner.content == f.inner.content
                &&& f2.inner.extents@ == f.inner.extents@.push(
                    CodexFsExtent { off, frag_off },
                )
                &&& (r is Some <==> off + len < f.size)
            }),
    {
        match &mut self.itype {
            IType::File(f) => {
                f.inner.extents.push(CodexFsExtent { off, frag_off });
                if off + len < f.size {
                    Some(())
                } else {
                    None
                }
            },
            _ => unreached(),
        }
    }
}


/// Extent list invariants of a regular file (compressed images): offsets
/// strictly increase, and every extent starts the file or starts its
/// fragment.
pub open spec fn extents_sorted(es: Seq<CodexFsExtent>) -> bool {
    forall|i: int, j: int| 0 <= i < j < es.len() ==> es[i].off < es[j].off
}

pub open spec fn extents_share_rule(es: Seq<CodexFsExtent>) -> bool {
    forall|i: int| 0 <= i < es.len() ==> (#[trigger] es[i]).off == 0 || es[i].frag_off == 0
}

/// The finished extent table of a file: sorted, obeying the sharing rule,
/// starting at offset zero and covering the whole size (the last extent
/// reaches `size` by the extent-length convention).
pub open spec fn file_extents_done(es: Seq<CodexFsExtent>, size: int) -> bool {
    &&& extents_sorted(es)
    &&& extents_share_rule(es)
    &&& (size > 0 ==> es.len() > 0 && es[0].off == 0 && es.last().off < size)
    &&& forall|i: int| 0 <= i < es.len() ==> (#[trigger] es[i]).off <= size
}

/// The extents a file has while the stream cursor has taken `consumed` of
/// its bytes.
pub open spec fn file_extents_partial(es: Seq<CodexFsExtent>, consumed: int) -> bool {
    &&& extents_sorted(es)
    &&& extents_share_rule(es)
    &&& (es.len() > 0 ==> es[0].off == 0 && es.last().off < consumed)
    &&& (consumed > 0 ==> es.len() > 0)
}

pub open spec fn spec_file_size(inodes: Seq<Inode>, fidx: int) -> int {
    match inodes[fidx].itype {
        IType::File(f) => f.size as int,
        _ => 0,
    }
}

pub open spec fn spec_file_extents(inodes: Seq<Inode>, fidx: int) -> Seq<CodexFsExtent> {
    match inodes[fidx].itype {
        IType::File(f) => f.inner.extents@,
        _ => Seq::empty(),
    }
}

/// The summed sizes of the listed files' first `k` entries.
pub open spec fn sum_sizes(inodes: Seq<Inode>, files: Seq<usize>, k: int) -> int
    decreases k,
{
    if k <= 0 {
        0
    } else {
        sum_sizes(inodes, files, k - 1) + spec_file_size(inodes, files[k - 1] as int)
    }
}

proof fn lemma_sum_sizes_mono(inodes: Seq<Inode>, files: Seq<usize>, a: int, b: int)
    requires
        0 <= a <= b <= files.len(),
    ensures
        sum_sizes(inodes, files, a) <= sum_sizes(inodes, files, b),
    decreases b - a,
{
    if a < b {
        lemma_sum_sizes_mono(inodes, files, a, b - 1);
    }
}

/// The lengths of the concatenated contents are the summed sizes.
proof fn lemma_concat_len(inodes: Seq<Inode>, files: Seq<usize>, k: int)
    requires
        0 <= k <= files.len(),
        crate::compress::files_loaded(inodes, files),
    ensures
        crate::compress::concat_contents(inodes, files.take(k)).len() == sum_sizes(
            inodes,
            files,
            k,
        ),
    decreases k,
{
    if k > 0 {
        lemma_concat_len(inodes, files, k - 1);
        assert(files.take(k).drop_last() =~= files.take(k - 1));
        assert(files.take(k).last() == files[k - 1]);
    }
}


/// What the compression pipeline leaves untouched of an inode: all
/// metadata, and everything of a file except its extent table and first
/// block id.
pub open spec fn pipeline_preserves(o: Inode, n: Inode) -> bool {
    &&& n.meta == o.meta
    &&& match (o.itype, n.itype) {
        (IType::File(fo), IType::File(fn_)) => {
            &&& fn_.size == fo.size
            &&& fn_.inner.content == fo.inner.content
            &&& fn_.inner.blk_off == fo.inner.blk_off
        },
        (IType::Dir(d1), IType::Dir(d2)) => d1 == d2,
        (IType::SymLink(s1), IType::SymLink(s2)) => s1 == s2,
        _ => false,
    }
}

impl Inode {
    /// Record the file's first data block, if none is recorded yet.
    pub fn set_blk_id_if_none(&mut self, blk: u32)
        requires
            old(self).itype is File,
        ensures
            final(self).meta == old(self).meta,
            final(self).itype is File,
            (final(self).itype matches IType::File(f2) ==> old(self).itype matches IType::File(
                f,
            ) && {
                &&& f2.size == f.size
                &&& f2.inner.content == f.inner.content
                &&& f2.inner.blk_off == f.inner.blk_off
                &&& f2.inner.extents == f.inner.extents
                &&& f2.inner.blk_id == (if f.inner.blk_id is Some {
                    f.inner.blk_id
                } else {
                    Some(blk)
                })
            }),
    {
        match &mut self.itype {
            IType::File(f) => {
                match f.inner.blk_id {
                    Some(_) => {},
                    None => {
                        f.inner.blk_id = Some(blk);
                    },
                }
            },
            _ => {},
        }
    }
}

impl Inode {
    /// Record the file's intra-block byte offset, if none is recorded yet.
    pub fn set_blk_off_if_none(&mut self, boff: u32)
        requires
            old(self).itype is File,
        ensures
            final(self).meta == old(self).meta,
            final(self).itype is File,
            (final(self).itype matches IType::File(f2) ==> old(self).itype matches IType::File(
                f,
            ) && {
                &&& f2.size == f.size
                &&& f2.inner.content == f.inner.content
                &&& f2.inner.blk_id == f.inner.blk_id
                &&& f2.inner.extents == f.inner.extents
                &&& f2.inner.blk_off == (if f.inner.blk_off is Some {
                    f.inner.blk_off
                } else {
                    Some(boff)
                })
            }),
    {
        match &mut self.itype {
            IType::File(f) => {
                match f.inner.blk_off {
                    Some(_) => {},
                    None => {
                        f.inner.blk_off = Some(boff);
                    },
                }
            },
            _ => {},
        }
    }
}

fn file_size_of(inodes: &Vec<Inode>, fidx: usize) -> (r: u32)
    requires
        (fidx as int) < inodes@.len(),
        inodes@[fidx as int].itype is File,
    ensures
        r == spec_file_size(inodes@, fidx as int),
{
    match &inodes[fidx].itype {
        IType::File(f) => f.size,
        _ => unreached(),
    }
}

/// The pipeline cursor invariants that tie the stream position to the file
/// list: `off_f` is the stream offset where file `fi` begins, files before
/// `fi` are finished, the current file is partially covered, and files
/// after it are untouched.
pub open spec fn pipeline_cursor_wf(
    inodes: Seq<Inode>,
    files: Seq<usize>,
    total: int,
    g: int,
    fi: int,
    off_f: int,
) -> bool {
    &&& 0 <= off_f <= g <= total
    &&& 0 <= fi <= files.len()
    &&& off_f == sum_sizes(inodes, files, fi)
    &&& total == sum_sizes(inodes, files, files.len() as int)
    &&& (fi < files.len() ==> g - off_f <= spec_file_size(inodes, files[fi] as int))
    &&& (fi < files.len() && g - off_f == spec_file_size(inodes, files[fi] as int) ==> g
        == off_f)
    &&& (fi == files.len() ==> g == total)
    &&& (forall|k: int|
        0 <= k < fi ==> file_extents_done(
            spec_file_extents(inodes, #[trigger] files[k] as int),
            spec_file_size(inodes, files[k] as int),
        ))
    &&& (fi < files.len() ==> file_extents_partial(
        spec_file_extents(inodes, files[fi] as int),
        g - off_f,
    ))
    &&& (forall|k: int|
        fi < k < files.len() ==> spec_file_extents(inodes, #[trigger] files[k] as int).len()
            == 0)
}

/// Walk one decompressed fragment of `clen` bytes and hand its ranges out
/// to the files they belong to, one extent each.
#[verifier::loop_isolation(false)]
#[verifier::rlimit(100)]
fn assign_fragment_extents(
    inodes: &mut Vec<Inode>,
    cmpr: &crate::compress::CompressManager,
    blkid: u32,
    clen: usize,
    g_in: usize,
    fi_in: usize,
    off_f_in: usize,
) -> (r: (usize, usize, usize))
    requires
        crate::compress::files_loaded(old(inodes)@, cmpr.files@),
        forall|k1: int, k2: int|
            0 <= k1 < k2 < cmpr.files@.len() ==> cmpr.files@[k1] != cmpr.files@[k2],
        cmpr.file_data@.len() <= u32::MAX,
        1 <= clen <= 1048576,
        g_in + clen <= cmpr.file_data@.len(),
        pipeline_cursor_wf(
            old(inodes)@,
            cmpr.files@,
            cmpr.file_data@.len() as int,
            g_in as int,
            fi_in as int,
            off_f_in as int,
        ),
    ensures
        final(inodes)@.len() == old(inodes)@.len(),
        forall|idx: int|
            0 <= idx < old(inodes)@.len() ==> pipeline_preserves(
                old(inodes)@[idx],
                #[trigger] final(inodes)@[idx],
            ),
        crate::compress::files_loaded(final(inodes)@, cmpr.files@),
        r.0 == g_in + clen,
        r.1 >= fi_in,
        pipeline_cursor_wf(
            final(inodes)@,
            cmpr.files@,
            cmpr.file_data@.len() as int,
            r.0 as int,
            r.1 as int,
            r.2 as int,
        ),
{
    let ghost gfiles = cmpr.files@;
    let ghost total = cmpr.file_data@.len() as int;
    let nfiles: usize = cmpr.files.len();
    let ghost g0 = g_in;
    let mut g = g_in;
    let mut fi = fi_in;
    let mut off_f = off_f_in;
    let mut frag_off: usize = 0;
    while frag_off < clen
        invariant
            inodes@.len() == old(inodes)@.len(),
            forall|idx: int|
                0 <= idx < old(inodes)@.len() ==> pipeline_preserves(
                    old(inodes)@[idx],
                    #[trigger] inodes@[idx],
                ),
            crate::compress::files_loaded(inodes@, gfiles),
            g == g0 + frag_off,
            frag_off <= clen,
            fi >= fi_in,
            pipeline_cursor_wf(inodes@, gfiles, total, g as int, fi as int, off_f as int),
            frag_off > 0 && frag_off < clen && fi < gfiles.len() ==> spec_file_extents(
                inodes@,
                gfiles[fi as int] as int,
            ).len() == 0,
        decreases clen - frag_off, gfiles.len() - fi,
    {
        proof {
            if fi == gfiles.len() {
                assert(g == total);
                assert(g < total);
            }
        }
        let fidx: usize = cmpr.files[fi];
        let ghost pre_inodes = inodes@;
        {
            let ino = &mut inodes[fidx];
            ino.set_blk_id_if_none(blkid);
        }
        proof {
            assert forall|idx: int|
                0 <= idx < old(inodes)@.len() implies pipeline_preserves(
                old(inodes)@[idx],
                #[trigger] inodes@[idx],
            ) by {
                if idx != fidx {
                    assert(inodes@[idx] == pre_inodes[idx]);
                }
            }
            assert forall|k: int|
                0 <= k < gfiles.len() implies spec_file_size(
                pre_inodes,
                #[trigger] gfiles[k] as int,
            ) == spec_file_size(inodes@, gfiles[k] as int) by {
                if gfiles[k] as int != fidx {
                    assert(inodes@[gfiles[k] as int] == pre_inodes[gfiles[k] as int]);
                }
            }
            lemma_sum_sizes_stable(pre_inodes, inodes@, gfiles, fi as int);
            lemma_sum_sizes_stable(pre_inodes, inodes@, gfiles, fi as int + 1);
            lemma_sum_sizes_stable(pre_inodes, inodes@, gfiles, gfiles.len() as int);
            assert forall|k: int|
                0 <= k < gfiles.len() && gfiles[k] as int != fidx implies spec_file_extents(
                inodes@,
                #[trigger] gfiles[k] as int,
            ) == spec_file_extents(pre_inodes, gfiles[k] as int) by {
                assert(inodes@[gfiles[k] as int] == pre_inodes[gfiles[k] as int]);
            }
        }
        let fsize: u32 = file_size_of(inodes, fidx);
        proof {
            assert(sum_sizes(inodes@, gfiles, fi as int + 1) == sum_sizes(
                inodes@,
                gfiles,
                fi as int,
            ) + spec_file_size(inodes@, gfiles[fi as int] as int));
            lemma_sum_sizes_mono(inodes@, gfiles, fi as int + 1, gfiles.len() as int);
        }
        let file_remaining: usize = off_f + (fsize as usize) - g;
        let chunk_remaining: usize = clen - frag_off;
        let len: usize = if chunk_remaining < file_remaining {
            chunk_remaining
        } else {
            file_remaining
        };
        let off_in_file: u32 = (g - off_f) as u32;
        let ghost pre2 = inodes@;
        let ghost pre_es = spec_file_extents(inodes@, fidx as int);
        let more: Option<()>;
        {
            let ino = &mut inodes[fidx];
            more = ino.push_extent(off_in_file, len as u32, frag_off as u32);
        }
        proof {
            assert forall|idx: int|
                0 <= idx < old(inodes)@.len() implies pipeline_preserves(
                old(inodes)@[idx],
                #[trigger] inodes@[idx],
            ) by {
                if idx != fidx {
                    assert(inodes@[idx] == pre2[idx]);
                }
            }
            assert forall|k: int|
                0 <= k < gfiles.len() implies spec_file_size(
                pre2,
                #[trigger] gfiles[k] as int,
            ) == spec_file_size(inodes@, gfiles[k] as int) by {
                if gfiles[k] as int != fidx {
                    assert(inodes@[gfiles[k] as int] == pre2[gfiles[k] as int]);
                }
            }
            lemma_sum_sizes_stable(pre2, inodes@, gfiles, fi as int);
            lemma_sum_sizes_stable(pre2, inodes@, gfiles, fi as int + 1);
            lemma_sum_sizes_stable(pre2, inodes@, gfiles, gfiles.len() as int);
            assert forall|k: int|
                0 <= k < gfiles.len() && gfiles[k] as int != fidx implies spec_file_extents(
                inodes@,
                #[trigger] gfiles[k] as int,
            ) == spec_file_extents(pre2, gfiles[k] as int) by {
                assert(inodes@[gfiles[k] as int] == pre2[gfiles[k] as int]);
            }
            let es = spec_file_extents(inodes@, fidx as int);
            assert(es == pre_es.push(
                CodexFsExtent { off: off_in_file, frag_off: frag_off as u32 },
            ));
            assert(es.last() == (CodexFsExtent {
                off: off_in_file,
                frag_off: frag_off as u32,
            }));
            assert forall|i: int, j: int| 0 <= i < j < es.len() implies es[i].off
                < es[j].off by {
                if j < es.len() - 1 {
                    assert(es[i] == pre_es[i] && es[j] == pre_es[j]);
                } else {
                    assert(es[i] == pre_es[i]);
                    if i < pre_es.len() - 1 {
                        assert(pre_es[i].off < pre_es[pre_es.len() - 1].off);
                    }
                    assert(pre_es.len() > 0 ==> pre_es[pre_es.len() - 1].off < g - off_f);
                }
            }
            assert forall|i: int| 0 <= i < es.len() implies ((#[trigger] es[i]).off == 0
                || es[i].frag_off == 0) by {
                if i < es.len() - 1 {
                    assert(es[i] == pre_es[i]);
                } else {
                    if frag_off > 0 {
                        assert(pre_es.len() == 0);
                        assert(g - off_f == 0);
                    }
                }
            }
        }
        g = g + len;
        frag_off = frag_off + len;
        match more {
            Some(_) => {
                proof {
                    // an unfinished file takes all that remains of the fragment
                    assert(len == chunk_remaining);
                    assert(frag_off == clen);
                    let es = spec_file_extents(inodes@, fidx as int);
                    assert(es.last().off < g - off_f);
                }
            },
            None => {
                proof {
                    lemma_sum_sizes_mono(inodes@, gfiles, fi as int + 1, gfiles.len() as int);
                    assert(sum_sizes(inodes@, gfiles, fi as int + 1) == off_f + fsize);
                    assert(sum_sizes(inodes@, gfiles, gfiles.len() as int) == total);
                    assert(off_f + fsize <= total);
                    assert(fi < nfiles);
                }
                off_f = off_f + (fsize as usize);
                fi = fi + 1;
                proof {
                    assert(sum_sizes(inodes@, gfiles, fi as int) == sum_sizes(
                        inodes@,
                        gfiles,
                        fi as int - 1,
                    ) + spec_file_size(inodes@, gfiles[fi as int - 1] as int));
                    let es = spec_file_extents(inodes@, gfiles[fi as int - 1] as int);
                    assert(file_extents_done(es, fsize as int)) by {
                        assert(es.last().off == off_in_file);
                    }
                    if fi < gfiles.len() {
                        lemma_sum_sizes_mono(inodes@, gfiles, fi as int + 1, gfiles.len() as int);
                        assert(sum_sizes(inodes@, gfiles, fi as int + 1) == sum_sizes(
                            inodes@,
                            gfiles,
                            fi as int,
                        ) + spec_file_size(inodes@, gfiles[fi as int] as int));
                    } else {
                        assert(off_f == sum_sizes(inodes@, gfiles, gfiles.len() as int));
                    }
                }
            },
        }
    }
    (g, fi, off_f)
}

/// Data block `blk` holds, right-aligned, the complete compressed stream
/// of the stream chunk `[g0, g1)`.
pub open spec fn block_encodes_chunk(
    img: Seq<u8>,
    bsz: int,
    blk: int,
    stream: Seq<u8>,
    g0: int,
    g1: int,
    level: u32,
) -> bool {
    let enc = crate::compress::spec_lzma_enc(stream.subrange(g0, g1), level);
    &&& 0 < enc.len() <= bsz
    &&& blk * bsz + bsz <= img.len()
    &&& img.subrange(blk * bsz + (bsz - enc.len()), blk * bsz + bsz) == enc
}

/// The whole data area of a compressed image: chunk bounds
/// `0 = cuts[0] < cuts[1] < ... = |stream|` split the stream, and block
/// `bids[j]` encodes chunk `[cuts[j], cuts[j+1])`.
pub open spec fn data_blocks_chain(
    img: Seq<u8>,
    bsz: int,
    stream: Seq<u8>,
    level: u32,
    cuts: Seq<int>,
    bids: Seq<int>,
) -> bool {
    &&& cuts.len() == bids.len() + 1
    &&& bids.len() > 0
    &&& cuts[0] == 0
    &&& cuts.last() == stream.len()
    &&& forall|j: int| 0 <= j < bids.len() ==> #[trigger] cuts[j] < cuts[j + 1]
    &&& forall|j: int|
        0 <= j < bids.len() ==> #[trigger] block_encodes_chunk(
            img,
            bsz,
            bids[j],
            stream,
            cuts[j],
            cuts[j + 1],
            level,
        )
}

/// A write beside a block leaves the block's chunk claim standing.
proof fn lemma_chunk_claim_preserved(
    pre: Seq<u8>,
    post: Seq<u8>,
    bsz: int,
    blk: int,
    stream: Seq<u8>,
    g0: int,
    g1: int,
    level: u32,
    wstart: int,
    wlen: int,
)
    requires
        block_encodes_chunk(pre, bsz, blk, stream, g0, g1, level),
        post.len() >= pre.len(),
        forall|x: int|
            0 <= x < pre.len() && !(wstart <= x < wstart + wlen) ==> #[trigger] post[x] == pre[x],
        wstart >= blk * bsz + bsz || wstart + wlen <= blk * bsz,
        bsz > 0,
        blk >= 0,
    ensures
        block_encodes_chunk(post, bsz, blk, stream, g0, g1, level),
{
    let enc = crate::compress::spec_lzma_enc(stream.subrange(g0, g1), level);
    assert(post.subrange(blk * bsz + (bsz - enc.len()), blk * bsz + bsz) =~= pre.subrange(
        blk * bsz + (bsz - enc.len()),
        blk * bsz + bsz,
    ));
}

/// The end-block bookkeeping the compressed writer owes: the superblock
/// names a final data block whose trailing `end_data_blk_sz` bytes are the
/// complete compressed stream of the stream's final chunk.
pub open spec fn end_block_encodes(
    img: Seq<u8>,
    bsz: int,
    end_id: int,
    end_sz: int,
    stream: Seq<u8>,
    upto: int,
    level: u32,
) -> bool {
    exists|g0: int|
        #![trigger stream.subrange(g0, upto)]
        {
            let enc = crate::compress::spec_lzma_enc(stream.subrange(g0, upto), level);
            &&& 0 <= g0 < upto
            &&& enc.len() == end_sz
            &&& 0 < end_sz <= bsz
            &&& end_id * bsz + bsz <= img.len()
            &&& img.subrange(end_id * bsz + (bsz - end_sz), end_id * bsz + bsz) == enc
        }
}

/// Lay the reordered stream out as compressed data blocks and give every
/// file its extent table.  Each block holds one complete compressed
/// fragment, placed right-aligned; the superblock records the last block
/// and its payload length.  On success every listed file's extents are
/// strictly sorted by file offset, each extent starts the file or starts
/// its fragment, and the table covers exactly the file's size.
#[verifier::loop_isolation(false)]
#[verifier::rlimit(100)]
pub fn mkfs_dump_inode_file_data_z(
    sb: &mut crate::sb::SuperBlock,
    img: &mut crate::image::Image,
    buf_mgr: &mut crate::buffer::BufferManager,
    inodes: &mut Vec<Inode>,
    cmpr: &crate::compress::CompressManager,
) -> (r: Result<(), crate::error::CodexFsError>)
    requires
        old(sb).wf(),
        old(buf_mgr).wf(),
        old(buf_mgr).blksz == old(sb).spec_blksz(),
        crate::compress::files_loaded(old(inodes)@, cmpr.files@),
        forall|k1: int, k2: int|
            0 <= k1 < k2 < cmpr.files@.len() ==> cmpr.files@[k1] != cmpr.files@[k2],
        forall|k: int|
            0 <= k < cmpr.files@.len() ==> spec_file_extents(
                old(inodes)@,
                #[trigger] cmpr.files@[k] as int,
            ).len() == 0,
        cmpr.file_data@ == crate::compress::concat_contents(old(inodes)@, cmpr.files@),
        cmpr.file_data@.len() <= u32::MAX,
        old(buf_mgr).n_blocks() + 2 * cmpr.file_data@.len() + 10 <= u32::MAX,
        old(buf_mgr).frontier() + (2 * cmpr.file_data@.len() + 4) * old(buf_mgr).spec_blksz()
            < usize::MAX,
    ensures
        final(buf_mgr).wf(),
        final(buf_mgr).blksz == old(buf_mgr).blksz,
        final(buf_mgr).regions@.len() >= old(buf_mgr).regions@.len(),
        forall|p: int|
            0 <= p < old(buf_mgr).regions@.len() ==> #[trigger] final(buf_mgr).regions@[p]
                == old(buf_mgr).regions@[p],
        final(inodes)@.len() == old(inodes)@.len(),
        forall|idx: int|
            0 <= idx < old(inodes)@.len() ==> pipeline_preserves(
                old(inodes)@[idx],
                #[trigger] final(inodes)@[idx],
            ),
        final(sb).blksz_bits == old(sb).blksz_bits,
        final(sb).islot_bits == old(sb).islot_bits,
        final(sb).compress == old(sb).compress,
        final(sb).ino == old(sb).ino,
        final(sb).root == old(sb).root,
        r is Ok ==> forall|k: int|
            0 <= k < cmpr.files@.len() ==> file_extents_done(
                spec_file_extents(final(inodes)@, #[trigger] cmpr.files@[k] as int),
                spec_file_size(final(inodes)@, cmpr.files@[k] as int),
            ),
        r is Err ==> r == Err::<(), crate::error::CodexFsError>(
            crate::error::CodexFsError::CodecError,
        ),
        (r is Ok && cmpr.file_data@.len() > 0) ==> end_block_encodes(
            final(img).data@,
            old(sb).spec_blksz(),
            final(sb).end_data_blk_id as int,
            final(sb).end_data_blk_sz as int,
            cmpr.file_data@,
            cmpr.file_data@.len() as int,
            cmpr.lzma_level,
        ),
        (r is Ok && cmpr.file_data@.len() > 0) ==> exists|cuts: Seq<int>, bids: Seq<int>|
            #[trigger] data_blocks_chain(
                final(img).data@,
                old(sb).spec_blksz(),
                cmpr.file_data@,
                cmpr.lzma_level,
                cuts,
                bids,
            ),
{
    let ghost gfiles = cmpr.files@;
    let ghost init_n = old(buf_mgr).n_blocks();
    let ghost init_frontier = old(buf_mgr).frontier();
    let bsz: u32 = sb.blksz();
    let total: usize = cmpr.file_data.len();
    proof {
        lemma_concat_len(old(inodes)@, gfiles, gfiles.len() as int);
        assert(gfiles.take(gfiles.len() as int) =~= gfiles);
    }
    let mut g: usize = 0;
    let mut fi: usize = 0;
    let mut off_f: usize = 0;
    let ghost init_rlen = old(buf_mgr).regions@.len();
    let ghost mut cuts: Seq<int> = seq![0int];
    let ghost mut bids: Seq<int> = Seq::empty();
    while g < total
        invariant
            sb.wf(),
            sb.blksz_bits == old(sb).blksz_bits,
            sb.islot_bits == old(sb).islot_bits,
            sb.compress == old(sb).compress,
            sb.ino == old(sb).ino,
            sb.root == old(sb).root,
            buf_mgr.wf(),
            buf_mgr.blksz == bsz,
            inodes@.len() == old(inodes)@.len(),
            forall|idx: int|
                0 <= idx < old(inodes)@.len() ==> pipeline_preserves(
                    old(inodes)@[idx],
                    #[trigger] inodes@[idx],
                ),
            crate::compress::files_loaded(inodes@, gfiles),
            g <= total,
            pipeline_cursor_wf(inodes@, gfiles, total as int, g as int, fi as int, off_f as int),
            buf_mgr.n_blocks() <= init_n + 2 * g,
            buf_mgr.frontier() <= init_frontier + 2 * g * (bsz as int),
            buf_mgr.regions@.len() >= old(buf_mgr).regions@.len(),
            forall|p: int|
                0 <= p < old(buf_mgr).regions@.len() ==> #[trigger] buf_mgr.regions@[p] == old(
                    buf_mgr,
                ).regions@[p],
            g > 0 ==> end_block_encodes(
                img.data@,
                bsz as int,
                sb.end_data_blk_id as int,
                sb.end_data_blk_sz as int,
                cmpr.file_data@,
                g as int,
                cmpr.lzma_level,
            ),
            cuts.len() == bids.len() + 1,
            cuts[0] == 0,
            cuts.last() == g as int,
            g == 0 ==> bids.len() == 0,
            g > 0 ==> bids.len() > 0,
            forall|j: int| 0 <= j < bids.len() ==> #[trigger] cuts[j] < cuts[j + 1],
            forall|j: int| 0 <= j < bids.len() ==> (#[trigger] bids[j]) >= 0,
            buf_mgr.regions@.len() == init_rlen + bids.len(),
            forall|j: int|
                0 <= j < bids.len() ==> #[trigger] buf_mgr.regions@[init_rlen + j] == (
                    bids[j] * (bsz as int),
                    bsz as int,
                ),
            forall|j: int|
                0 <= j < bids.len() ==> #[trigger] block_encodes_chunk(
                    img.data@,
                    bsz as int,
                    bids[j],
                    cmpr.file_data@,
                    cuts[j],
                    cuts[j + 1],
                    cmpr.lzma_level,
                ),
        decreases total - g,
    {
        // find the largest chunk whose complete compressed stream fits a block
        let mut clen: usize = total - g;
        if clen > 1048576 {
            clen = 1048576;
        }
        let mut comp: Vec<u8> = match crate::compress::lzma_compress_slice(
            &cmpr.file_data,
            g,
            clen,
            cmpr.lzma_level,
        ) {
            Ok(c) => c,
            Err(_) => {
                return Err(crate::error::CodexFsError::CodecError);
            },
        };
        while comp.len() > bsz as usize
            invariant
                1 <= clen <= 1048576,
                g + clen <= total,
                comp@ == crate::compress::spec_lzma_enc(
                    cmpr.file_data@.subrange(g as int, g as int + clen as int),
                    cmpr.lzma_level,
                ),
            decreases clen,
        {
            clen = clen / 2;
            if clen == 0 {
                return Err(crate::error::CodexFsError::CodecError);
            }
            comp = match crate::compress::lzma_compress_slice(
                &cmpr.file_data,
                g,
                clen,
                cmpr.lzma_level,
            ) {
                Ok(c) => c,
                Err(_) => {
                    return Err(crate::error::CodexFsError::CodecError);
                },
            };
        }
        // one whole block, compressed payload right-aligned at its end
        let ghost pre_alloc = *buf_mgr;
        proof {
            vstd::arithmetic::div_mod::lemma_mod_self_0(bsz as int);
            vstd::arithmetic::div_mod::lemma_fundamental_div_mod(bsz as int, bsz as int);
            vstd::arithmetic::div_mod::lemma_div_by_self(bsz as int);
        }
        let woff: u64 = buf_mgr.balloc(bsz as u64, crate::buffer::BufferType::ZData);
        proof {
            assert(crate::utils::spec_round_up(bsz as int, bsz as int) == bsz as int);
            assert(buf_mgr.frontier() <= pre_alloc.frontier() + 2 * (bsz as int));
            assert(buf_mgr.n_blocks() <= pre_alloc.n_blocks() + 2) by (nonlinear_arith)
                requires
                    buf_mgr.n_blocks() * (bsz as int) <= pre_alloc.n_blocks() * (bsz as int) + 2
                        * (bsz as int),
                    bsz as int > 0,
                    buf_mgr.frontier() == buf_mgr.n_blocks() * (bsz as int),
                    pre_alloc.frontier() == pre_alloc.n_blocks() * (bsz as int),
            ;
            assert(buf_mgr.frontier() <= init_frontier + (2 * g + 2) * (bsz as int))
                by (nonlinear_arith)
                requires
                    buf_mgr.frontier() <= init_frontier + 2 * g * (bsz as int) + 2 * (
                    bsz as int),
            ;
            assert(init_frontier + (2 * g + 2) * (bsz as int) <= init_frontier + (2 * total
                + 4) * (bsz as int)) by (nonlinear_arith)
                requires
                    g < total,
                    bsz as int > 0,
            ;
            assert(woff + bsz <= buf_mgr.frontier());
            let nb = buf_mgr.n_blocks();
            assert(nb * (bsz as int) - 1 == (nb - 1) * (bsz as int) + (bsz as int - 1))
                by (nonlinear_arith);
            vstd::arithmetic::div_mod::lemma_fundamental_div_mod_converse(
                nb * (bsz as int) - 1,
                bsz as int,
                nb - 1,
                bsz as int - 1,
            );
            vstd::arithmetic::div_mod::lemma_div_is_ordered(
                woff as int,
                nb * (bsz as int) - 1,
                bsz as int,
            );
            assert(woff as int / (bsz as int) <= nb - 1);
        }
        let margin: u32 = bsz - (comp.len() as u32);
        if comp.len() == 0 {
            return Err(crate::error::CodexFsError::CodecError);
        }
        let ghost pre_w_img = img.data@;
        img.write_all_at(&comp, woff + margin as u64);
        let blkid: u32 = crate::addr_to_blk_id(sb, woff);
        sb.end_data_blk_id = blkid;
        sb.end_data_blk_sz = comp.len() as u32;
        proof {
            // the block just written carries the chunk `[g, g+clen)`,
            // right-aligned; it is the end block until a later one replaces it
            vstd::arithmetic::div_mod::lemma_fundamental_div_mod(woff as int, bsz as int);
            assert(blkid as int * (bsz as int) == woff as int) by (nonlinear_arith)
                requires
                    woff as int == (bsz as int) * (woff as int / (bsz as int)) + (woff as int % (
                    bsz as int)),
                    woff as int % (bsz as int) == 0,
                    blkid as int == woff as int / (bsz as int),
            ;
            assert(img.data@.len() >= woff + bsz);
            assert(img.data@.subrange(
                blkid as int * (bsz as int) + (bsz as int - comp@.len()),
                blkid as int * (bsz as int) + bsz as int,
            ) =~= comp@);
            assert(end_block_encodes(
                img.data@,
                bsz as int,
                blkid as int,
                comp@.len() as int,
                cmpr.file_data@,
                g + clen,
                cmpr.lzma_level,
            )) by {
                assert(comp@ == crate::compress::spec_lzma_enc(
                    cmpr.file_data@.subrange(g as int, g as int + clen as int),
                    cmpr.lzma_level,
                ));
            }
            // the block chain: earlier blocks sit in other allocator regions
            // and keep their chunks; this block adds the chunk `[g, g+clen)`
            assert(crate::utils::spec_round_up(bsz as int, bsz as int) == bsz as int);
            assert(buf_mgr.regions@ == pre_alloc.regions@.push(
                (woff as int, bsz as int),
            ));
            assert(buf_mgr.regions@[init_rlen as int + bids.len() as int] == (woff as int, bsz as int));
            assert forall|j: int|
                0 <= j < bids.len() implies #[trigger] buf_mgr.regions@[init_rlen + j] == (
                bids[j] * (bsz as int),
                bsz as int,
            ) by {
                assert(pre_alloc.regions@.push((woff as int, bsz as int))[init_rlen + j]
                    == pre_alloc.regions@[init_rlen + j]);
            }
            assert forall|j: int|
                0 <= j < bids.len() implies #[trigger] block_encodes_chunk(
                img.data@,
                bsz as int,
                bids[j],
                cmpr.file_data@,
                cuts[j],
                cuts[j + 1],
                cmpr.lzma_level,
            ) by {
                assert(buf_mgr.regions@[init_rlen + j] == (bids[j] * (bsz as int), bsz as int));
                assert(crate::buffer::region_disjoint(
                    buf_mgr.regions@[init_rlen + j],
                    buf_mgr.regions@[init_rlen as int + bids.len() as int],
                ));
                crate::image::lemma_spec_write_untouched(
                    pre_w_img,
                    woff as int + margin as int,
                    comp@,
                );
                lemma_chunk_claim_preserved(
                    pre_w_img,
                    img.data@,
                    bsz as int,
                    bids[j],
                    cmpr.file_data@,
                    cuts[j],
                    cuts[j + 1],
                    cmpr.lzma_level,
                    woff as int + margin as int,
                    comp@.len() as int,
                );
            }
            bids = bids.push(blkid as int);
            cuts = cuts.push(g as int + clen as int);
            assert forall|j: int|
                0 <= j < bids.len() implies #[trigger] block_encodes_chunk(
                img.data@,
                bsz as int,
                bids[j],
                cmpr.file_data@,
                cuts[j],
                cuts[j + 1],
                cmpr.lzma_level,
            ) by {
                if j < bids.len() - 1 {
                    assert(bids[j] == bids.drop_last()[j]);
                    assert(cuts[j] == cuts.drop_last()[j]);
                    assert(cuts[j + 1] == cuts.drop_last()[j + 1] || j + 1 == cuts.len() - 1);
                } else {
                    assert(bids[j] == blkid as int);
                    assert(cuts[j] == g as int);
                    assert(cuts[j + 1] == g as int + clen as int);
                    assert(block_encodes_chunk(
                        img.data@,
                        bsz as int,
                        blkid as int,
                        cmpr.file_data@,
                        g as int,
                        g as int + clen as int,
                        cmpr.lzma_level,
                    )) by {
                        assert(comp@ == crate::compress::spec_lzma_enc(
                            cmpr.file_data@.subrange(g as int, g as int + clen as int),
                            cmpr.lzma_level,
                        ));
                        assert(img.data@.subrange(
                            blkid as int * (bsz as int) + (bsz as int - comp@.len()),
                            blkid as int * (bsz as int) + bsz as int,
                        ) =~= comp@);
                    }
                }
            }
            assert forall|j: int|
                0 <= j < bids.len() implies #[trigger] buf_mgr.regions@[init_rlen + j] == (
                bids[j] * (bsz as int),
                bsz as int,
            ) by {
                if j < bids.len() - 1 {
                    assert(bids[j] == bids.drop_last()[j]);
                }
            }
        }
        // hand the fragment's bytes out to the files they belong to
        let ghost pre_frag = inodes@;
        let ghost g_before = g;
        let stepped = assign_fragment_extents(inodes, cmpr, blkid, clen, g, fi, off_f);
        g = stepped.0;
        fi = stepped.1;
        off_f = stepped.2;
        proof {
            assert forall|idx: int|
                0 <= idx < old(inodes)@.len() implies pipeline_preserves(
                old(inodes)@[idx],
                #[trigger] inodes@[idx],
            ) by {
                assert(pipeline_preserves(old(inodes)@[idx], pre_frag[idx]));
                assert(pipeline_preserves(pre_frag[idx], inodes@[idx]));
            }
            assert(init_frontier + (2 * g_before + 2) * (bsz as int) <= init_frontier + 2 * g * (
            bsz as int)) by (nonlinear_arith)
                requires
                    g >= g_before + 1,
                    bsz as int > 0,
            ;
        }
    }
    proof {
        if total > 0 {
            assert(data_blocks_chain(
                img.data@,
                bsz as int,
                cmpr.file_data@,
                cmpr.lzma_level,
                cuts,
                bids,
            ));
        }
        // trailing files never reached by the cursor are empty
        assert forall|k: int|
            0 <= k < gfiles.len() implies file_extents_done(
            spec_file_extents(inodes@, #[trigger] gfiles[k] as int),
            spec_file_size(inodes@, gfiles[k] as int),
        ) by {
            if k >= fi {
                if fi < gfiles.len() {
                    assert forall|p: int|
                        0 <= p < gfiles.len() implies spec_file_size(
                        inodes@,
                        #[trigger] gfiles[p] as int,
                    ) >= 0 by {}
                    if k > fi {
                        assert(sum_sizes(inodes@, gfiles, fi as int + 1) == off_f
                            + spec_file_size(inodes@, gfiles[fi as int] as int));
                        lemma_suffix_sizes_zero_from(inodes@, gfiles, fi as int + 1, k);
                        assert(spec_file_extents(inodes@, gfiles[k] as int).len() == 0);
                    } else {
                        // the current file was consumed to its exact size
                        lemma_sum_sizes_mono(inodes@, gfiles, fi as int + 1, gfiles.len() as int);
                        assert(sum_sizes(inodes@, gfiles, fi as int + 1) == off_f
                            + spec_file_size(inodes@, gfiles[fi as int] as int));
                        assert(g - off_f == spec_file_size(inodes@, gfiles[fi as int] as int));
                    }
                }
            }
        }
    }
    Ok(())
}


/// What the uncompressed data writer leaves untouched of an inode.
pub open spec fn plain_dump_preserves(o: Inode, n: Inode) -> bool {
    &&& n.meta == o.meta
    &&& match (o.itype, n.itype) {
        (IType::File(fo), IType::File(fn_)) => fn_.size == fo.size && fn_.inner.content
            == fo.inner.content && fn_.inner.extents == fo.inner.extents,
        (IType::Dir(d1), IType::Dir(d2)) => d1 == d2,
        (IType::SymLink(s1), IType::SymLink(s2)) => s1 == s2,
        _ => false,
    }
}

/// What the uncompressed data writer owes for one file: its recorded
/// block id and intra-block offset name a byte address, and the file's
/// bytes sit whole in the image there.
pub open spec fn plain_file_dumped(img: Seq<u8>, bsz: int, ino: Inode) -> bool {
    ino.itype matches IType::File(f) ==> (f.inner.blk_id matches Some(bid)
        && f.inner.blk_off matches Some(boff) && f.inner.content matches Some(c) && ({
        let addr = bid * bsz + boff;
        &&& 0 <= boff < bsz
        &&& addr + c@.len() <= img.len()
        &&& img.subrange(addr, addr + c@.len() as int) == c@
    }))
}

/// Write each file's raw bytes back to back and record where each begins.
/// Uncompressed images address file data by block id plus intra-block
/// offset.
#[verifier::loop_isolation(false)]
#[verifier::rlimit(100)]
pub fn mkfs_dump_inode_file_data(
    sb: &crate::sb::SuperBlock,
    img: &mut crate::image::Image,
    buf_mgr: &mut crate::buffer::BufferManager,
    inodes: &mut Vec<Inode>,
    cmpr: &crate::compress::CompressManager,
) -> (r: Result<(), crate::error::CodexFsError>)
    requires
        sb.wf(),
        old(buf_mgr).wf(),
        old(buf_mgr).blksz == sb.spec_blksz(),
        crate::compress::files_loaded(old(inodes)@, cmpr.files@),
        cmpr.file_data@.len() <= u32::MAX,
        old(buf_mgr).n_blocks() + 2 * cmpr.files@.len() + 2 * cmpr.file_data@.len() + 10
            <= u32::MAX,
        old(buf_mgr).frontier() + (cmpr.files@.len() + cmpr.file_data@.len() + 4) * (2 * old(
            buf_mgr,
        ).spec_blksz()) < usize::MAX,
        cmpr.file_data@ == crate::compress::concat_contents(old(inodes)@, cmpr.files@),
        forall|k1: int, k2: int|
            0 <= k1 < k2 < cmpr.files@.len() ==> cmpr.files@[k1] != cmpr.files@[k2],
        forall|k: int|
            0 <= k < cmpr.files@.len() ==> fresh_file(
                old(inodes)@,
                (#[trigger] cmpr.files@[k]) as int,
            ),
    ensures
        r is Ok,
        final(buf_mgr).wf(),
        final(buf_mgr).blksz == old(buf_mgr).blksz,
        final(buf_mgr).regions@.len() >= old(buf_mgr).regions@.len(),
        forall|p: int|
            0 <= p < old(buf_mgr).regions@.len() ==> #[trigger] final(buf_mgr).regions@[p]
                == old(buf_mgr).regions@[p],
        final(inodes)@.len() == old(inodes)@.len(),
        forall|idx: int|
            0 <= idx < old(inodes)@.len() ==> plain_dump_preserves(
                old(inodes)@[idx],
                #[trigger] final(inodes)@[idx],
            ),
        final(img).data@.len() >= old(img).data@.len(),
        forall|p: int|
            0 <= p < cmpr.files@.len() ==> #[trigger] plain_file_dumped(
                final(img).data@,
                sb.spec_blksz(),
                final(inodes)@[cmpr.files@[p] as int],
            ),
{
    let ghost gfiles = cmpr.files@;
    let ghost init_n = old(buf_mgr).n_blocks();
    let ghost init_frontier = old(buf_mgr).frontier();
    let ghost init_rlen = old(buf_mgr).regions@.len() as int;
    let bsz: u32 = sb.blksz();
    let nfiles: usize = cmpr.files.len();
    proof {
        lemma_concat_len(old(inodes)@, gfiles, gfiles.len() as int);
        assert(gfiles.take(gfiles.len() as int) =~= gfiles);
    }
    let ghost total = cmpr.file_data@.len() as int;
    let mut k: usize = 0;
    let mut written: usize = 0;
    while k < nfiles
        invariant
            nfiles == gfiles.len(),
            buf_mgr.wf(),
            buf_mgr.blksz == bsz,
            bsz == sb.spec_blksz(),
            32 <= bsz <= 65536,
            inodes@.len() == old(inodes)@.len(),
            forall|idx: int|
                0 <= idx < old(inodes)@.len() ==> plain_dump_preserves(
                    old(inodes)@[idx],
                    #[trigger] inodes@[idx],
                ),
            crate::compress::files_loaded(inodes@, gfiles),
            k <= nfiles,
            written == sum_sizes(inodes@, gfiles, k as int),
            total == sum_sizes(inodes@, gfiles, gfiles.len() as int),
            total <= u32::MAX,
            init_n + 2 * nfiles + 2 * total + 10 <= u32::MAX,
            init_frontier + ((nfiles + total + 4) * (2 * (bsz as int))) < usize::MAX,
            buf_mgr.n_blocks() <= init_n + 2 * k + 2 * written,
            buf_mgr.frontier() <= init_frontier + (k + written) * (2 * (bsz as int)),
            buf_mgr.regions@.len() >= old(buf_mgr).regions@.len(),
            forall|p: int|
                0 <= p < old(buf_mgr).regions@.len() ==> #[trigger] buf_mgr.regions@[p] == old(
                    buf_mgr,
                ).regions@[p],
            buf_mgr.regions@.len() == init_rlen + k,
            img.data@.len() >= old(img).data@.len(),
            forall|p: int|
                k <= p < nfiles ==> fresh_file(inodes@, (#[trigger] gfiles[p]) as int),
            forall|p: int|
                0 <= p < k ==> #[trigger] plain_file_dumped(
                    img.data@,
                    bsz as int,
                    inodes@[gfiles[p] as int],
                ),
            forall|p: int|
                #![trigger gfiles[p]]
                0 <= p < k ==> (inodes@[gfiles[p] as int].itype matches IType::File(f)
                    && f.inner.blk_id matches Some(bid) && f.inner.blk_off matches Some(bo)
                    && f.inner.content matches Some(c) && bid * (bsz as int) + bo
                    == buf_mgr.regions@[init_rlen + p].0 && c@.len()
                    == buf_mgr.regions@[init_rlen + p].1),
        decreases nfiles - k,
    {
        proof {
            lemma_sum_sizes_mono(inodes@, gfiles, k as int + 1, gfiles.len() as int);
            assert(sum_sizes(inodes@, gfiles, k as int + 1) == written + spec_file_size(
                inodes@,
                gfiles[k as int] as int,
            ));
        }
        let fidx: usize = cmpr.files[k];
        let flen: usize = {
            let c = crate::compress::content_ref(inodes, fidx);
            c.len()
        };
        let ghost pre_alloc = *buf_mgr;
        proof {
            vstd::arithmetic::div_mod::lemma_div_nonincreasing(flen as int, bsz as int);
        }
        let addr: u64 = buf_mgr.balloc(flen as u64, crate::buffer::BufferType::Data);
        proof {
            crate::utils::lemma_round_up_one(flen as int);
            assert(buf_mgr.frontier() <= pre_alloc.frontier() + flen + (bsz as int));
            assert(buf_mgr.n_blocks() <= pre_alloc.n_blocks() + flen + 2) by (nonlinear_arith)
                requires
                    buf_mgr.n_blocks() * (bsz as int) <= pre_alloc.n_blocks() * (bsz as int)
                        + flen + (bsz as int),
                    bsz as int >= 1,
                    flen >= 0,
                    buf_mgr.frontier() == buf_mgr.n_blocks() * (bsz as int),
                    pre_alloc.frontier() == pre_alloc.n_blocks() * (bsz as int),
            ;
            assert((k + written) * (2 * (bsz as int)) + flen + (bsz as int) <= (k + 1 + written
                + flen) * (2 * (bsz as int))) by (nonlinear_arith)
                requires
                    bsz as int >= 1,
                    flen >= 0,
            ;
            assert((k + 1 + written + flen) * (2 * (bsz as int)) <= (nfiles + total + 4) * (2 * (
            bsz as int))) by (nonlinear_arith)
                requires
                    k + 1 <= nfiles,
                    written + flen <= total,
                    bsz as int >= 1,
            ;
            assert(addr + flen <= buf_mgr.frontier());
            let nb = buf_mgr.n_blocks();
            vstd::arithmetic::div_mod::lemma_fundamental_div_mod_converse(
                nb * (bsz as int),
                bsz as int,
                nb,
                0,
            );
            vstd::arithmetic::div_mod::lemma_div_is_ordered(
                addr as int,
                nb * (bsz as int),
                bsz as int,
            );
            assert(addr as int / (bsz as int) <= nb);
            assert(buf_mgr.regions@ == pre_alloc.regions@.push((addr as int, flen as int)));
            assert(buf_mgr.regions@[init_rlen + k as int] == (addr as int, flen as int));
            buf_mgr.lemma_regions_sound();
        }
        let ghost pre_w_img = img.data@;
        {
            let c = crate::compress::content_ref(inodes, fidx);
            img.write_all_at(c, addr);
        }
        proof {
            let fc = crate::compress::file_content(inodes@, fidx as int);
            crate::image::lemma_spec_write_untouched(pre_w_img, addr as int, fc);
            assert(img.data@.subrange(addr as int, addr as int + fc.len() as int) =~= fc);
            assert forall|p: int|
                0 <= p < k implies #[trigger] plain_file_dumped(
                img.data@,
                bsz as int,
                inodes@[gfiles[p] as int],
            ) by {
                let fp = gfiles[p] as int;
                assert(plain_file_dumped(pre_w_img, bsz as int, inodes@[fp]));
                let rp = buf_mgr.regions@[init_rlen + p];
                let rk = buf_mgr.regions@[init_rlen + k as int];
                assert(crate::buffer::region_disjoint(rp, rk));
                match inodes@[fp].itype {
                    IType::File(f) => {
                        let a_p = f.inner.blk_id.unwrap() * (bsz as int)
                            + f.inner.blk_off.unwrap();
                        let l_p = f.inner.content.unwrap()@.len() as int;
                        assert(a_p == rp.0 && l_p == rp.1);
                        assert forall|x: int| a_p <= x < a_p + l_p implies img.data@[x]
                            == pre_w_img[x] by {
                            assert(!(addr as int <= x < addr as int + flen));
                        }
                        assert(img.data@.subrange(a_p, a_p + l_p) =~= pre_w_img.subrange(
                            a_p,
                            a_p + l_p,
                        ));
                    },
                    _ => {},
                }
            }
        }
        let blkid: u32 = crate::addr_to_blk_id(sb, addr);
        let boff: u32 = crate::addr_to_blk_off(sb, addr);
        let ghost pre_inodes = inodes@;
        {
            let ino = &mut inodes[fidx];
            ino.set_blk_id_if_none(blkid);
        }
        let ghost mid_inodes = inodes@;
        {
            let ino = &mut inodes[fidx];
            ino.set_blk_off_if_none(boff);
        }
        proof {
            assert forall|idx: int|
                0 <= idx < old(inodes)@.len() implies plain_dump_preserves(
                old(inodes)@[idx],
                #[trigger] inodes@[idx],
            ) by {
                if idx != fidx {
                    assert(inodes@[idx] == mid_inodes[idx]);
                    assert(mid_inodes[idx] == pre_inodes[idx]);
                } else {
                    assert(plain_dump_preserves(old(inodes)@[idx], pre_inodes[idx]));
                }
            }
            assert forall|p: int|
                0 <= p < gfiles.len() implies spec_file_size(
                pre_inodes,
                #[trigger] gfiles[p] as int,
            ) == spec_file_size(inodes@, gfiles[p] as int) by {
                if gfiles[p] as int != fidx {
                    assert(inodes@[gfiles[p] as int] == pre_inodes[gfiles[p] as int]);
                }
            }
            lemma_sum_sizes_stable(pre_inodes, inodes@, gfiles, k as int + 1);
            lemma_sum_sizes_stable(pre_inodes, inodes@, gfiles, gfiles.len() as int);
            assert(flen == spec_file_size(inodes@, gfiles[k as int] as int));
            vstd::arithmetic::div_mod::lemma_fundamental_div_mod(addr as int, bsz as int);
            vstd::arithmetic::div_mod::lemma_mod_bound(addr as int, bsz as int);
            assert(blkid * (bsz as int) + boff == addr as int);
            assert forall|p: int|
                k as int + 1 <= p < nfiles implies fresh_file(
                inodes@,
                (#[trigger] gfiles[p]) as int,
            ) by {
                assert(gfiles[p] != gfiles[k as int]);
                assert(inodes@[gfiles[p] as int] == pre_inodes[gfiles[p] as int]);
            }
            assert forall|p: int|
                0 <= p < k implies #[trigger] plain_file_dumped(
                img.data@,
                bsz as int,
                inodes@[gfiles[p] as int],
            ) by {
                assert(gfiles[p] != gfiles[k as int]);
                assert(inodes@[gfiles[p] as int] == pre_inodes[gfiles[p] as int]);
            }
            assert(plain_file_dumped(img.data@, bsz as int, inodes@[gfiles[k as int] as int]));
            assert forall|p: int|
                #![trigger gfiles[p]]
                0 <= p < k + 1 implies (inodes@[gfiles[p] as int].itype matches IType::File(f)
                && f.inner.blk_id matches Some(bid) && f.inner.blk_off matches Some(bo)
                && f.inner.content matches Some(c) && bid * (bsz as int) + bo
                == buf_mgr.regions@[init_rlen + p].0 && c@.len() == buf_mgr.regions@[init_rlen
                + p].1) by {
                if p < k {
                    assert(gfiles[p] != gfiles[k as int]);
                    assert(inodes@[gfiles[p] as int] == pre_inodes[gfiles[p] as int]);
                } else {
                    assert(buf_mgr.regions@[init_rlen + k as int] == (
                        addr as int,
                        flen as int,
                    ));
                }
            }
        }
        written = written + flen;
        k = k + 1;
    }
    Ok(())
}

/// Summed sizes are stable when no listed file's size changes.
proof fn lemma_sum_sizes_stable(pre: Seq<Inode>, post: Seq<Inode>, files: Seq<usize>, j: int)
    requires
        0 <= j <= files.len(),
        forall|k: int|
            0 <= k < files.len() ==> spec_file_size(pre, #[trigger] files[k] as int)
                == spec_file_size(post, files[k] as int),
    ensures
        sum_sizes(pre, files, j) == sum_sizes(post, files, j),
    decreases j,
{
    if j > 0 {
        lemma_sum_sizes_stable(pre, post, files, j - 1);
    }
}

/// The step form of the suffix-zero argument.
proof fn lemma_suffix_sizes_zero_from(inodes: Seq<Inode>, files: Seq<usize>, a: int, k: int)
    requires
        0 <= a <= k < files.len(),
        sum_sizes(inodes, files, files.len() as int) <= sum_sizes(inodes, files, a),
        forall|p: int|
            0 <= p < files.len() ==> spec_file_size(inodes, #[trigger] files[p] as int) >= 0,
    ensures
        spec_file_size(inodes, files[k] as int) == 0,
{
    lemma_sum_sizes_mono(inodes, files, a, k);
    lemma_sum_sizes_mono(inodes, files, k + 1, files.len() as int);
    assert(sum_sizes(inodes, files, k + 1) == sum_sizes(inodes, files, k) + spec_file_size(
        inodes,
        files[k] as int,
    ));
}


/// Map from source inode numbers to inode-table slots, with the slots
/// themselves: the table dedups hard links and keeps insertion order.
pub struct InodeTable {
    pub inodes: Vec<Inode>,
    pub index: Vec<(u32, usize)>,
}

/// The slot a number maps to: the most recent binding wins, though `wf`
/// keeps the keys unique.
pub open spec fn spec_lookup(index: Seq<(u32, usize)>, ino: u32) -> Option<usize>
    decreases index.len(),
{
    if index.len() == 0 {
        None
    } else if index.last().0 == ino {
        Some(index.last().1)
    } else {
        spec_lookup(index.drop_last(), ino)
    }
}

impl InodeTable {
    pub open spec fn wf(self) -> bool {
        &&& forall|p: int| 0 <= p < self.index@.len() ==> (#[trigger] self.index@[p]).1
            < self.inodes@.len()
        &&& forall|p: int, q: int|
            0 <= p < q < self.index@.len() ==> self.index@[p].0 != self.index@[q].0
    }

    pub fn new() -> (r: InodeTable)
        ensures
            r.wf(),
            r.inodes@.len() == 0,
            r.index@.len() == 0,
    {
        InodeTable { inodes: Vec::new(), index: Vec::new() }
    }

    /// The slot registered for a source inode number, if any.
    pub fn get_inode(&self, ino: u32) -> (r: Option<usize>)
        ensures
            r == spec_lookup(self.index@, ino),
    {
        let n = self.index.len();
        proof {
            assert(self.index@.take(n as int) =~= self.index@);
        }
        let mut p: usize = n;
        while p > 0
            invariant
                p <= n,
                n == self.index@.len(),
                spec_lookup(self.index@, ino) == spec_lookup(self.index@.take(p as int), ino),
            decreases p,
        {
            let pair = self.index[p - 1];
            proof {
                assert(self.index@.take(p as int).last() == self.index@[p - 1]);
                assert(self.index@.take(p as int).drop_last() =~= self.index@.take(p - 1));
            }
            if pair.0 == ino {
                return Some(pair.1);
            }
            p = p - 1;
        }
        proof {
            assert(self.index@.take(0) =~= Seq::<(u32, usize)>::empty());
        }
        None
    }

    /// Register a fresh binding; the number must not be bound yet.
    pub fn insert_inode(&mut self, ino: u32, idx: usize)
        requires
            old(self).wf(),
            idx < old(self).inodes@.len(),
            spec_lookup(old(self).index@, ino) is None,
        ensures
            final(self).wf(),
            final(self).inodes == old(self).inodes,
            final(self).index@ == old(self).index@.push((ino, idx)),
            spec_lookup(final(self).index@, ino) == Some(idx),
    {
        proof {
            lemma_lookup_none_no_key(self.index@, ino);
        }
        self.index.push((ino, idx));
        proof {
            assert(self.index@.drop_last() =~= old(self).index@);
            assert forall|p: int, q: int|
                0 <= p < q < self.index@.len() implies self.index@[p].0 != self.index@[q].0 by {
                if q == self.index@.len() - 1 {
                    assert(self.index@[p] == old(self).index@[p]);
                } else {
                    assert(self.index@[p] == old(self).index@[p]);
                    assert(self.index@[q] == old(self).index@[q]);
                }
            }
        }
    }

    /// The slot of the build-time inode recorded under a source path.
    pub fn get_inode_by_path(&self, path: &Vec<u8>) -> (r: Option<usize>)
        ensures
            r matches Some(i) ==> (i < self.inodes@.len() && (self.inodes@[i as int].meta.path
                matches Some(p2) && p2@ == path@)),
            r is None ==> (forall|i: int|
                0 <= i < self.inodes@.len() ==> !((#[trigger] self.inodes@[i].meta.path)
                    matches Some(p2) && p2@ == path@)),
    {
        let n = self.inodes.len();
        let mut i: usize = 0;
        while i < n
            invariant
                i <= n,
                n == self.inodes@.len(),
                forall|j: int|
                    0 <= j < i ==> !((#[trigger] self.inodes@[j].meta.path) matches Some(p2)
                        && p2@ == path@),
            decreases n - i,
        {
            match &self.inodes[i].meta.path {
                Some(p2) => {
                    if vec_u8_eq(p2, path) {
                        return Some(i);
                    }
                },
                None => {},
            }
            i = i + 1;
        }
        None
    }
}

/// A `None` lookup means the key is bound nowhere.
proof fn lemma_lookup_none_no_key(index: Seq<(u32, usize)>, ino: u32)
    requires
        spec_lookup(index, ino) is None,
    ensures
        forall|p: int| 0 <= p < index.len() ==> (#[trigger] index[p]).0 != ino,
    decreases index.len(),
{
    if index.len() > 0 {
        lemma_lookup_none_no_key(index.drop_last(), ino);
        assert forall|p: int| 0 <= p < index.len() implies (#[trigger] index[p]).0 != ino by {
            if p < index.len() - 1 {
                assert(index.drop_last()[p] == index[p]);
            }
        }
    }
}

pub fn vec_u8_eq(a: &Vec<u8>, b: &Vec<u8>) -> (r: bool)
    ensures
        r == (a@ == b@),
{
    if a.len() != b.len() {
        proof {
            assert(a@ != b@);
        }
        return false;
    }
    let n = a.len();
    let mut i: usize = 0;
    while i < n
        invariant
            i <= n,
            n == a@.len() == b@.len(),
            forall|j: int| 0 <= j < i ==> a@[j] == b@[j],
        decreases n - i,
    {
        if a[i] != b[i] {
            proof {
                assert(a@ != b@);
            }
            return false;
        }
        i = i + 1;
    }
    proof {
        assert(a@ =~= b@);
    }
    true
}

/// One node of the source tree handed in by the caller: plain metadata and
/// the kind-specific payload.
pub struct SourceNode {
    pub path: Vec<u8>,
    pub name: Vec<u8>,
    pub ino: u32,
    pub uid: u16,
    pub gid: u16,
    pub mode: u16,
    pub payload: SourcePayload,
}

/// File contents, directory children, a symlink target, or an unsupported
/// node kind (devices, fifos, sockets).
pub enum SourcePayload {
    File(Vec<u8>),
    Dir(Vec<SourceNode>),
    SymLink(Vec<u8>),
    Other,
}


pub fn copy_u8_vec(v: &Vec<u8>) -> (r: Vec<u8>)
    ensures
        r@ == v@,
{
    let mut out: Vec<u8> = Vec::new();
    let mut i: usize = 0;
    while i < v.len()
        invariant
            i <= v@.len(),
            out@ == v@.take(i as int),
        decreases v@.len() - i,
    {
        proof {
            assert(v@.take(i + 1) =~= v@.take(i as int).push(v@[i as int]));
        }
        out.push(v[i]);
        i = i + 1;
    }
    proof {
        assert(v@.take(v@.len() as int) =~= v@);
    }
    out
}

/// Loading further paths can only raise link counts of what is already in
/// the table.
pub open spec fn nlink_only_changed(o: Inode, n: Inode) -> bool {
    &&& n.itype == o.itype
    &&& n.meta.path == o.meta.path
    &&& n.meta.ino == o.meta.ino
    &&& n.meta.uid == o.meta.uid
    &&& n.meta.gid == o.meta.gid
    &&& n.meta.mode == o.meta.mode
    &&& n.meta.inner.nid == o.meta.inner.nid
    &&& n.meta.inner.meta_size == o.meta.inner.meta_size
    &&& n.meta.inner.nlink >= o.meta.inner.nlink
}

/// A regular file inode as the tree walk leaves it: content loaded, no
/// layout assigned yet.
pub open spec fn fresh_file(inodes: Seq<Inode>, fidx: int) -> bool {
    &&& 0 <= fidx < inodes.len()
    &&& inodes[fidx].itype matches IType::File(f) && {
        &&& f.inner.content is Some
        &&& f.inner.content.unwrap()@.len() == f.size
        &&& f.inner.extents@.len() == 0
        &&& f.inner.blk_id is None
        &&& f.inner.blk_off is None
    }
}


/// The number of directory children among the nodes.
pub open spec fn spec_count_subdirs(children: Seq<SourceNode>) -> int
    decreases children.len(),
{
    if children.len() == 0 {
        0
    } else {
        spec_count_subdirs(children.drop_last()) + (if children.last().payload is Dir {
            1int
        } else {
            0int
        })
    }
}

/// The summed name lengths of the nodes.
pub open spec fn spec_sum_name_lens(children: Seq<SourceNode>) -> int
    decreases children.len(),
{
    if children.len() == 0 {
        0
    } else {
        spec_sum_name_lens(children.drop_last()) + children.last().name@.len()
    }
}

/// A successful lookup names a real binding, so the slot is in the table.
pub proof fn lemma_lookup_bound_pub(index: Seq<(u32, usize)>, ino: u32)
    requires
        spec_lookup(index, ino) is Some,
    ensures
        exists|p: int|
            0 <= p < index.len() && #[trigger] index[p] == (
                ino,
                spec_lookup(index, ino).unwrap(),
            ),
    decreases index.len(),
{
    if index.len() > 0 {
        if index.last().0 == ino {
            assert(index[index.len() - 1] == (ino, spec_lookup(index, ino).unwrap()));
        } else {
            lemma_lookup_bound_pub(index.drop_last(), ino);
            let p = choose|p: int|
                0 <= p < index.drop_last().len() && #[trigger] index.drop_last()[p] == (
                    ino,
                    spec_lookup(index.drop_last(), ino).unwrap(),
                );
            assert(index[p] == (ino, spec_lookup(index, ino).unwrap()));
        }
    }
}

/// Build the inode forest for one source node (and, for directories, its
/// children).  Regular files and symlinks that share a source inode number
/// with an already-loaded path land on the same inode slot, with the link
/// count raised; fresh regular files are appended to `files`.
#[verifier::loop_isolation(false)]
#[verifier::rlimit(100)]
pub fn mkfs_load_inode(
    node: &SourceNode,
    parent: Option<usize>,
    sb: &mut crate::sb::SuperBlock,
    table: &mut InodeTable,
    files: &mut Vec<usize>,
) -> (r: Result<usize, crate::error::CodexFsError>)
    requires
        old(table).wf(),
        forall|k: int| 0 <= k < old(files)@.len() ==> fresh_file(old(table).inodes@, (#[trigger] old(files)@[k]) as int),
        forall|k1: int, k2: int|
            0 <= k1 < k2 < old(files)@.len() ==> old(files)@[k1] != old(files)@[k2],
        parent matches Some(p) ==> p < old(table).inodes@.len(),
    ensures
        final(table).wf(),
        final(table).inodes@.len() >= old(table).inodes@.len(),
        final(sb).blksz_bits == old(sb).blksz_bits,
        final(sb).islot_bits == old(sb).islot_bits,
        final(sb).compress == old(sb).compress,
        final(sb).root == old(sb).root,
        final(sb).end_data_blk_id == old(sb).end_data_blk_id,
        final(sb).end_data_blk_sz == old(sb).end_data_blk_sz,
        r matches Ok(idx) ==> idx < final(table).inodes@.len(),
        forall|idx: int|
            0 <= idx < old(table).inodes@.len() ==> nlink_only_changed(
                old(table).inodes@[idx],
                #[trigger] final(table).inodes@[idx],
            ),
        final(files)@.len() >= old(files)@.len(),
        forall|k: int| 0 <= k < old(files)@.len() ==> final(files)@[k] == old(files)@[k],
        forall|k: int| 0 <= k < final(files)@.len() ==> fresh_file(final(table).inodes@, (#[trigger] final(files)@[k]) as int),
        forall|k1: int, k2: int|
            0 <= k1 < k2 < final(files)@.len() ==> final(files)@[k1] != final(files)@[k2],
        forall|k: int|
            0 <= k < old(files)@.len() ==> (#[trigger] final(files)@[k]) < old(table).inodes@.len(),
        forall|k: int|
            old(files)@.len() <= k < final(files)@.len() ==> (#[trigger] final(files)@[k])
                >= old(table).inodes@.len(),
        (node.payload is File || node.payload is SymLink) ==> (match spec_lookup(
            old(table).index@,
            node.ino,
        ) {
            Some(i) => r == Ok::<usize, crate::error::CodexFsError>(i) || r is Err,
            None => true,
        }),
        (node.payload is File || node.payload is SymLink) ==> (match spec_lookup(
            old(table).index@,
            node.ino,
        ) {
            Some(i) => (r matches Ok(idx) ==> {
                &&& final(table).inodes@.len() == old(table).inodes@.len()
                &&& final(table).index == old(table).index
                &&& final(files)@ == old(files)@
                &&& final(table).inodes@[i as int].meta.inner.nlink == old(
                    table,
                ).inodes@[i as int].meta.inner.nlink + 1
                &&& forall|x: int|
                    0 <= x < old(table).inodes@.len() && x != i
                        ==> final(table).inodes@[x] == old(table).inodes@[x]
            }),
            None => (r matches Ok(idx) ==> {
                &&& idx == old(table).inodes@.len()
                &&& final(table).inodes@.len() == old(table).inodes@.len() + 1
                &&& ({
                    let ino = final(table).inodes@[idx as int];
                    &&& ino.meta.ino == final(sb).ino - 1
                    &&& ino.meta.uid == node.uid
                    &&& ino.meta.gid == node.gid
                    &&& ino.meta.mode == node.mode
                    &&& ino.meta.inner.nlink == 1
                })
            }),
        }),
        node.payload matches SourcePayload::File(content) ==> (spec_lookup(
            old(table).index@,
            node.ino,
        ) is None ==> (r matches Ok(idx) ==> {
            &&& final(files)@ == old(files)@.push(idx)
            &&& final(table).inodes@[idx as int].itype matches IType::File(f) && {
                &&& f.inner.content matches Some(c) && c@ == content@
                &&& f.size == content@.len()
            }
        })),
        node.payload matches SourcePayload::SymLink(target) ==> (spec_lookup(
            old(table).index@,
            node.ino,
        ) is None ==> (r matches Ok(idx) ==> {
            &&& final(files)@ == old(files)@
            &&& final(table).inodes@[idx as int].itype matches IType::SymLink(sl)
                && (sl.target matches Some(t) && t@ == target@)
            &&& final(table).inodes@[idx as int].meta.inner.meta_size == Some(
                target@.len() as u32,
            )
        })),
        node.payload is Dir ==> (r matches Ok(idx) ==> (idx >= old(table).inodes@.len()
            && final(table).inodes@[idx as int].itype is Dir)),
        r is Err ==> (r == Err::<usize, crate::error::CodexFsError>(
            crate::error::CodexFsError::FormatError,
        ) || r == Err::<usize, crate::error::CodexFsError>(
            crate::error::CodexFsError::UnsupportedFileType,
        )),
        node.payload matches SourcePayload::Dir(children) ==> (r matches Ok(idx) ==> {
            let ino = final(table).inodes@[idx as int];
            &&& ino.meta.uid == node.uid
            &&& ino.meta.gid == node.gid
            &&& ino.meta.mode == node.mode
            &&& ino.meta.inner.nlink as int == 2 + spec_count_subdirs(children@)
            &&& ino.meta.inner.meta_size == Some(
                ((children@.len() + 2) * 12 + 3 + spec_sum_name_lens(children@)) as u32,
            )
            &&& (ino.itype matches IType::Dir(d) && {
                &&& d.inner.dentries@.len() == children@.len()
                &&& d.inner.parent == Some(
                    (if parent is Some {
                        parent.unwrap()
                    } else {
                        idx
                    }),
                )
                &&& forall|c: int|
                    0 <= c < children@.len() ==> (#[trigger] d.inner.dentries@[c]).file_name@
                        == children@[c].name@
            })
        }),
    decreases *node,
{
    match &node.payload {
        SourcePayload::File(content) => {
            match table.get_inode(node.ino) {
                Some(i) => {
                    proof {
                        lemma_lookup_bound_pub(table.index@, node.ino);
                        assert(i < table.inodes@.len());
                    }
                    if table.inodes[i].meta.inner.nlink == u16::MAX {
                        return Err(crate::error::CodexFsError::FormatError);
                    }
                    let ghost pre = table.inodes@;
                    {
                        let ino = &mut table.inodes[i];
                        ino.meta.inc_nlink();
                    }
                    proof {
                        assert forall|idx: int|
                            0 <= idx < old(table).inodes@.len() implies nlink_only_changed(
                            old(table).inodes@[idx],
                            #[trigger] table.inodes@[idx],
                        ) by {
                            if idx != i {
                                assert(table.inodes@[idx] == pre[idx]);
                            }
                        }
                        assert forall|k: int|
                            0 <= k < files@.len() implies fresh_file(
                            table.inodes@,
                            (#[trigger] files@[k]) as int,
                        ) by {
                            if files@[k] as int != i {
                                assert(table.inodes@[files@[k] as int] == pre[files@[k] as int]);
                            }
                        }
                    }
                    Ok(i)
                },
                None => {
                    if sb.ino == u32::MAX {
                        return Err(crate::error::CodexFsError::FormatError);
                    }
                    if content.len() > u32::MAX as usize {
                        return Err(crate::error::CodexFsError::FormatError);
                    }
                    let ino_nr = sb.get_ino_and_inc();
                    let inode = Inode {
                        meta: InodeMeta {
                            path: Some(copy_u8_vec(&node.path)),
                            ino: ino_nr,
                            uid: node.uid,
                            gid: node.gid,
                            mode: node.mode,
                            inner: InodeMetaInner { nlink: 1, nid: 0, meta_size: None },
                        },
                        itype: IType::File(
                            File {
                                size: content.len() as u32,
                                inner: FileInner {
                                    blk_id: None,
                                    blk_off: None,
                                    extents: Vec::new(),
                                    content: Some(copy_u8_vec(content)),
                                },
                            },
                        ),
                    };
                    let ghost pre = table.inodes@;
                    table.inodes.push(inode);
                    let idx = table.inodes.len() - 1;
                    proof {
                        assert forall|p: int|
                            0 <= p < table.index@.len() implies (#[trigger] table.index@[p]).1
                            < table.inodes@.len() by {}
                    }
                    table.insert_inode(node.ino, idx);
                    files.push(idx);
                    proof {
                        assert forall|k: int|
                            0 <= k < files@.len() implies fresh_file(
                            table.inodes@,
                            (#[trigger] files@[k]) as int,
                        ) by {
                            if k < files@.len() - 1 {
                                assert(files@[k] == old(files)@[k]);
                                assert(table.inodes@[files@[k] as int] == pre[files@[k] as int]);
                            } else {
                                assert(files@[k] == idx);
                            }
                        }
                    }
                    Ok(idx)
                },
            }
        },
        SourcePayload::SymLink(target) => {
            match table.get_inode(node.ino) {
                Some(i) => {
                    proof {
                        lemma_lookup_bound_pub(table.index@, node.ino);
                        assert(i < table.inodes@.len());
                    }
                    if table.inodes[i].meta.inner.nlink == u16::MAX {
                        return Err(crate::error::CodexFsError::FormatError);
                    }
                    let ghost pre = table.inodes@;
                    {
                        let ino = &mut table.inodes[i];
                        ino.meta.inc_nlink();
                    }
                    proof {
                        assert forall|idx: int|
                            0 <= idx < old(table).inodes@.len() implies nlink_only_changed(
                            old(table).inodes@[idx],
                            #[trigger] table.inodes@[idx],
                        ) by {
                            if idx != i {
                                assert(table.inodes@[idx] == pre[idx]);
                            }
                        }
                        assert forall|k: int|
                            0 <= k < files@.len() implies fresh_file(
                            table.inodes@,
                            (#[trigger] files@[k]) as int,
                        ) by {
                            if files@[k] as int != i {
                                assert(table.inodes@[files@[k] as int] == pre[files@[k] as int]);
                            }
                        }
                    }
                    Ok(i)
                },
                None => {
                    if sb.ino == u32::MAX {
                        return Err(crate::error::CodexFsError::FormatError);
                    }
                    if target.len() > u16::MAX as usize {
                        return Err(crate::error::CodexFsError::FormatError);
                    }
                    let ino_nr = sb.get_ino_and_inc();
                    let inode = Inode {
                        meta: InodeMeta {
                            path: Some(copy_u8_vec(&node.path)),
                            ino: ino_nr,
                            uid: node.uid,
                            gid: node.gid,
                            mode: node.mode,
                            inner: InodeMetaInner {
                                nlink: 1,
                                nid: 0,
                                meta_size: Some(target.len() as u32),
                            },
                        },
                        itype: IType::SymLink(SymLink { target: Some(copy_u8_vec(target)) }),
                    };
                    let ghost pre = table.inodes@;
                    table.inodes.push(inode);
                    let idx = table.inodes.len() - 1;
                    table.insert_inode(node.ino, idx);
                    proof {
                        assert forall|k: int|
                            0 <= k < files@.len() implies fresh_file(
                            table.inodes@,
                            (#[trigger] files@[k]) as int,
                        ) by {
                            assert(table.inodes@[files@[k] as int] == pre[files@[k] as int]);
                        }
                    }
                    Ok(idx)
                },
            }
        },
        SourcePayload::Dir(children) => {
            let mut dentries: Vec<Dentry> = Vec::new();
            let mut subdir_fixups: Vec<usize> = Vec::new();
            let mut subdirs: u16 = 0;
            let mut names_total: u32 = 0;
            let n = children.len();
            let mut c: usize = 0;
            let ghost entry_inodes_len = old(table).inodes@.len();
            let ghost entry_files = old(files)@;
            while c < n
                invariant
                    n == children@.len(),
                    c <= n,
                    table.wf(),
                    table.inodes@.len() >= entry_inodes_len,
                    sb.blksz_bits == old(sb).blksz_bits,
                    sb.islot_bits == old(sb).islot_bits,
                    sb.compress == old(sb).compress,
                    sb.root == old(sb).root,
                    sb.end_data_blk_id == old(sb).end_data_blk_id,
                    sb.end_data_blk_sz == old(sb).end_data_blk_sz,
                    forall|idx: int|
                        0 <= idx < entry_inodes_len ==> nlink_only_changed(
                            old(table).inodes@[idx],
                            #[trigger] table.inodes@[idx],
                        ),
                    files@.len() >= entry_files.len(),
                    forall|k: int| 0 <= k < entry_files.len() ==> files@[k] == entry_files[k],
                    forall|k: int|
                        0 <= k < files@.len() ==> fresh_file(
                            table.inodes@,
                            (#[trigger] files@[k]) as int,
                        ),
                    forall|k1: int, k2: int|
                        0 <= k1 < k2 < files@.len() ==> files@[k1] != files@[k2],
                    forall|k: int|
                        0 <= k < entry_files.len() ==> (#[trigger] files@[k])
                            < entry_inodes_len,
                    forall|k: int|
                        entry_files.len() <= k < files@.len() ==> (#[trigger] files@[k])
                            >= entry_inodes_len,
                    subdirs <= c,
                    dentries@.len() == c,
                    forall|p: int|
                        0 <= p < c ==> (#[trigger] dentries@[p]).file_name@ == children@[p].name@,
                    subdirs as int == spec_count_subdirs(children@.take(c as int)),
                    names_total as int == spec_sum_name_lens(children@.take(c as int)),
                    forall|k: int|
                        0 <= k < subdir_fixups@.len() ==> ((#[trigger] subdir_fixups@[k])
                            < table.inodes@.len() && table.inodes@[subdir_fixups@[k] as int].itype
                            is Dir && subdir_fixups@[k] >= entry_inodes_len),
                decreases n - c,
            {
                proof {
                    assert(decreases_to!(*node => node.payload));
                    assert(decreases_to!(node.payload => children@[c as int]));
                }
                let ghost mid_len = table.inodes@.len();
                let ghost mid_files = files@;
                let ghost mid_inodes = table.inodes@;
                let cres = mkfs_load_inode(&children[c], None, sb, table, files);
                let cidx = match cres {
                    Ok(i) => i,
                    Err(e) => {
                        return Err(e);
                    },
                };
                proof {
                    assert forall|idx: int|
                        0 <= idx < entry_inodes_len implies nlink_only_changed(
                        old(table).inodes@[idx],
                        #[trigger] table.inodes@[idx],
                    ) by {
                        assert(nlink_only_changed(old(table).inodes@[idx], mid_inodes[idx]));
                        assert(nlink_only_changed(mid_inodes[idx], table.inodes@[idx]));
                    }
                    assert forall|k: int|
                        0 <= k < subdir_fixups@.len() implies ((#[trigger] subdir_fixups@[k])
                        < table.inodes@.len() && table.inodes@[subdir_fixups@[k] as int].itype
                        is Dir) by {
                        assert(nlink_only_changed(
                            mid_inodes[subdir_fixups@[k] as int],
                            table.inodes@[subdir_fixups@[k] as int],
                        ));
                    }
                }
                let ftype = table.inodes[cidx].file_type();
                let child_is_dir = matches!(&children[c].payload, SourcePayload::Dir(_));
                if child_is_dir {
                    if subdirs == u16::MAX {
                        return Err(crate::error::CodexFsError::FormatError);
                    }
                    subdirs = subdirs + 1;
                    let ghost pre_sf = subdir_fixups@;
                    subdir_fixups.push(cidx);
                    proof {
                        assert forall|k: int|
                            0 <= k < subdir_fixups@.len() implies ((
                        #[trigger] subdir_fixups@[k]) < table.inodes@.len()
                            && table.inodes@[subdir_fixups@[k] as int].itype is Dir
                            && subdir_fixups@[k] >= entry_inodes_len) by {
                            if k < subdir_fixups@.len() - 1 {
                                assert(subdir_fixups@[k] == pre_sf[k]);
                            } else {
                                assert(subdir_fixups@[k] == cidx);
                                assert(cidx >= mid_len);
                                assert(mid_len >= entry_inodes_len);
                                assert(table.inodes@[cidx as int].itype is Dir);
                            }
                        }
                    }
                }
                if children[c].name.len() > u16::MAX as usize {
                    return Err(crate::error::CodexFsError::FormatError);
                }
                if names_total > u32::MAX - (children[c].name.len() as u32) {
                    return Err(crate::error::CodexFsError::FormatError);
                }
                names_total = names_total + (children[c].name.len() as u32);
                dentries.push(
                    Dentry::new_name(copy_u8_vec(&children[c].name), ftype, cidx),
                );
                proof {
                    assert(children@.take(c + 1).drop_last() =~= children@.take(c as int));
                    assert(children@.take(c + 1).last() == children@[c as int]);
                }
                c = c + 1;
            }
            proof {
                assert(children@.take(n as int) =~= children@);
            }
            // the tail layout: one dirent per child plus `.` and `..`, then
            // the name bytes
            if dentries.len() > (u16::MAX as usize) / 16 {
                return Err(crate::error::CodexFsError::FormatError);
            }
            let dirent_bytes: u32 = ((dentries.len() as u32) + 2) * 12;
            let msize_wide: u64 = dirent_bytes as u64 + 3 + names_total as u64;
            if msize_wide > u16::MAX as u64 {
                return Err(crate::error::CodexFsError::FormatError);
            }
            let msize: u32 = msize_wide as u32;
            if sb.ino == u32::MAX {
                return Err(crate::error::CodexFsError::FormatError);
            }
            if subdirs > u16::MAX - 2 {
                return Err(crate::error::CodexFsError::FormatError);
            }
            let ino_nr = sb.get_ino_and_inc();
            let inode = Inode {
                meta: InodeMeta {
                    path: Some(copy_u8_vec(&node.path)),
                    ino: ino_nr,
                    uid: node.uid,
                    gid: node.gid,
                    mode: node.mode,
                    inner: InodeMetaInner {
                        nlink: 2 + subdirs,
                        nid: 0,
                        meta_size: Some(msize),
                    },
                },
                itype: IType::Dir(Dir { inner: DirInner { parent: None, dentries } }),
            };
            let ghost pre = table.inodes@;
            table.inodes.push(inode);
            let idx = table.inodes.len() - 1;
            match table.get_inode(node.ino) {
                Some(_) => {},
                None => {
                    table.insert_inode(node.ino, idx);
                },
            }
            let pidx: usize = match parent {
                Some(p) => p,
                None => idx,
            };
            let ghost pre_parent = table.inodes@;
            {
                let ino = &mut table.inodes[idx];
                ino.set_parent(pidx);
            }
            proof {
                assert forall|idx2: int|
                    0 <= idx2 < entry_inodes_len implies nlink_only_changed(
                    old(table).inodes@[idx2],
                    #[trigger] table.inodes@[idx2],
                ) by {
                    assert(table.inodes@[idx2] == pre_parent[idx2]);
                    assert(pre_parent[idx2] == pre[idx2]);
                }
                assert forall|k: int|
                    0 <= k < files@.len() implies fresh_file(
                    table.inodes@,
                    (#[trigger] files@[k]) as int,
                ) by {
                    assert(table.inodes@[files@[k] as int] == pre[files@[k] as int]);
                }
            }
            // fix the children's parent links now that this slot exists
            let mut f: usize = 0;
            let nf = subdir_fixups.len();
            while f < nf
                invariant
                    f <= nf,
                    nf == subdir_fixups@.len(),
                    idx < table.inodes@.len(),
                    table.inodes@[idx as int].itype is Dir,
                    ({
                        let ino = table.inodes@[idx as int];
                        &&& ino.meta.uid == node.uid
                        &&& ino.meta.gid == node.gid
                        &&& ino.meta.mode == node.mode
                        &&& ino.meta.inner.nlink as int == 2 + spec_count_subdirs(children@)
                        &&& ino.meta.inner.meta_size == Some(
                            ((children@.len() + 2) * 12 + 3 + spec_sum_name_lens(
                                children@,
                            )) as u32,
                        )
                        &&& (ino.itype matches IType::Dir(d) && {
                            &&& d.inner.dentries@.len() == children@.len()
                            &&& d.inner.parent == Some(pidx)
                            &&& forall|cc: int|
                                0 <= cc < children@.len() ==> (#[trigger] d.inner.dentries@[
                                    cc
                                ]).file_name@ == children@[cc].name@
                        })
                    }),
                    table.wf(),
                    table.inodes@.len() == pre.len() + 1,
                    forall|k: int|
                        0 <= k < subdir_fixups@.len() ==> ((#[trigger] subdir_fixups@[k])
                            < idx && subdir_fixups@[k] >= entry_inodes_len),
                    forall|idx2: int|
                        0 <= idx2 < entry_inodes_len ==> nlink_only_changed(
                            old(table).inodes@[idx2],
                            #[trigger] table.inodes@[idx2],
                        ),
                    forall|k: int|
                        0 <= k < files@.len() ==> fresh_file(
                            table.inodes@,
                            (#[trigger] files@[k]) as int,
                        ),
                decreases nf - f,
            {
                let ghost before = table.inodes@;
                let target_idx = subdir_fixups[f];
                if table.inodes[target_idx].file_type().is_dir() {
                    let ino = &mut table.inodes[target_idx];
                    ino.set_parent(idx);
                }
                proof {
                    assert(table.inodes@[idx as int] == before[idx as int]);
                    assert forall|idx2: int|
                        0 <= idx2 < entry_inodes_len implies nlink_only_changed(
                        old(table).inodes@[idx2],
                        #[trigger] table.inodes@[idx2],
                    ) by {
                        assert(target_idx >= entry_inodes_len);
                        assert(table.inodes@[idx2] == before[idx2]);
                    }
                    assert forall|k: int|
                        0 <= k < files@.len() implies fresh_file(
                        table.inodes@,
                        (#[trigger] files@[k]) as int,
                    ) by {
                        if files@[k] as int != target_idx {
                            assert(table.inodes@[files@[k] as int] == before[files@[k] as int]);
                        } else {
                            assert(fresh_file(before, files@[k] as int));
                        }
                    }
                }
                f = f + 1;
            }
            Ok(idx)
        },
        SourcePayload::Other => Err(crate::error::CodexFsError::UnsupportedFileType),
    }
}


/// The on-disk bytes an inode's slot must hold: the record plus its
/// variable tail.
pub open spec fn spec_slot_bytes(ino: Inode) -> int {
    32 + match ino.itype {
        IType::File(f) => f.inner.extents@.len() as int * 8,
        _ => ino.meta.inner.meta_size.unwrap() as int,
    }
}

/// Slot allocation changes only the recorded nid of each inode.
pub open spec fn nid_only_changed(o: Inode, n: Inode) -> bool {
    &&& n.itype == o.itype
    &&& n.meta.path == o.meta.path
    &&& n.meta.ino == o.meta.ino
    &&& n.meta.uid == o.meta.uid
    &&& n.meta.gid == o.meta.gid
    &&& n.meta.mode == o.meta.mode
    &&& n.meta.inner.nlink == o.meta.inner.nlink
    &&& n.meta.inner.meta_size == o.meta.inner.meta_size
}

/// Give every inode a slot: the record plus its variable tail, aligned to
/// the inode-slot grid.  Runs after data dumping, when extent counts are
/// known.
#[verifier::loop_isolation(false)]
#[verifier::rlimit(100)]
pub fn mkfs_balloc_inode(
    sb: &crate::sb::SuperBlock,
    buf_mgr: &mut crate::buffer::BufferManager,
    inodes: &mut Vec<Inode>,
) -> (r: Result<(), crate::error::CodexFsError>)
    requires
        sb.wf(),
        old(buf_mgr).wf(),
        old(buf_mgr).blksz == sb.spec_blksz(),
        old(buf_mgr).n_blocks() + old(inodes)@.len() * 20000 + 10 <= u32::MAX,
        old(buf_mgr).frontier() + old(inodes)@.len() * 20000 * old(buf_mgr).spec_blksz()
            < usize::MAX,
    ensures
        final(buf_mgr).wf(),
        final(buf_mgr).blksz == old(buf_mgr).blksz,
        final(inodes)@.len() == old(inodes)@.len(),
        forall|idx: int|
            0 <= idx < old(inodes)@.len() ==> nid_only_changed(
                old(inodes)@[idx],
                #[trigger] final(inodes)@[idx],
            ),
        r is Err ==> r == Err::<(), crate::error::CodexFsError>(
            crate::error::CodexFsError::FormatError,
        ),
        r is Ok ==> {
            &&& final(buf_mgr).regions@.len() == old(buf_mgr).regions@.len() + old(
                inodes,
            )@.len()
            &&& forall|p: int|
                0 <= p < old(buf_mgr).regions@.len() ==> #[trigger] final(buf_mgr).regions@[p]
                    == old(buf_mgr).regions@[p]
            &&& forall|idx: int|
                0 <= idx < old(inodes)@.len() ==> #[trigger] final(buf_mgr).regions@[old(
                    buf_mgr,
                ).regions@.len() + idx] == (
                    final(inodes)@[idx].meta.inner.nid * 32,
                    crate::utils::spec_round_up(spec_slot_bytes(old(inodes)@[idx]), 32),
                )
            &&& forall|idx: int|
                0 <= idx < old(inodes)@.len() ==> 32 <= #[trigger] spec_slot_bytes(
                    old(inodes)@[idx],
                ) <= 600000
        },
{
    let ghost init_n = old(buf_mgr).n_blocks();
    let ghost init_frontier = old(buf_mgr).frontier();
    let ghost init_regions = old(buf_mgr).regions@;
    let bsz: u32 = sb.blksz();
    let n = inodes.len();
    let mut k: usize = 0;
    while k < n
        invariant
            n == inodes@.len(),
            k <= n,
            buf_mgr.wf(),
            buf_mgr.blksz == bsz,
            inodes@.len() == old(inodes)@.len(),
            forall|idx: int|
                0 <= idx < old(inodes)@.len() ==> nid_only_changed(
                    old(inodes)@[idx],
                    #[trigger] inodes@[idx],
                ),
            buf_mgr.n_blocks() <= init_n + k * 20000,
            buf_mgr.frontier() <= init_frontier + k * 20000 * (bsz as int),
            buf_mgr.regions@.len() == init_regions.len() + k,
            forall|p: int| 0 <= p < init_regions.len() ==> buf_mgr.regions@[p] == init_regions[p],
            forall|idx: int|
                0 <= idx < k ==> #[trigger] buf_mgr.regions@[init_regions.len() + idx] == (
                    inodes@[idx].meta.inner.nid * 32,
                    crate::utils::spec_round_up(spec_slot_bytes(old(inodes)@[idx]), 32),
                ),
            forall|idx: int|
                0 <= idx < k ==> 32 <= #[trigger] spec_slot_bytes(old(inodes)@[idx]) <= 600000,
        decreases n - k,
    {
        let tail: u64 = match &inodes[k].itype {
            IType::File(f) => {
                if f.inner.extents.len() > (u16::MAX as usize) {
                    return Err(crate::error::CodexFsError::FormatError);
                }
                (f.inner.extents.len() as u64) * 8
            },
            IType::Dir(_) => {
                match inodes[k].meta.inner.meta_size {
                    Some(m) => {
                        if m > u16::MAX as u32 {
                            return Err(crate::error::CodexFsError::FormatError);
                        }
                        m as u64
                    },
                    None => {
                        return Err(crate::error::CodexFsError::FormatError);
                    },
                }
            },
            IType::SymLink(_) => {
                match inodes[k].meta.inner.meta_size {
                    Some(m) => {
                        if m > u16::MAX as u32 {
                            return Err(crate::error::CodexFsError::FormatError);
                        }
                        m as u64
                    },
                    None => {
                        return Err(crate::error::CodexFsError::FormatError);
                    },
                }
            },
        };
        let size: u64 = 32 + tail;
        proof {
            assert(size <= 32 + 65536 * 8);
            vstd::arithmetic::div_mod::lemma_div_is_ordered(size as int, 557056, bsz as int);
            vstd::arithmetic::div_mod::lemma_div_is_ordered_by_denominator(557056, 32, bsz as int);
            vstd::arithmetic::div_mod::lemma_fundamental_div_mod_converse(557056, 32, 17408, 0);
            assert(557056int / 32 == 17408);
            assert(k * 20000 <= n * 20000) by (nonlinear_arith)
                requires
                    k <= n,
            ;
        }
        let ghost pre_alloc = *buf_mgr;
        let addr: u64 = buf_mgr.balloc(size, crate::buffer::BufferType::Inode);
        proof {
            crate::utils::lemma_round_up_le(size as int, 32, (size + 32) as int);
            assert(buf_mgr.frontier() <= pre_alloc.frontier() + size + 32 + (bsz as int));
            assert(buf_mgr.n_blocks() <= pre_alloc.n_blocks() + 19500) by (nonlinear_arith)
                requires
                    buf_mgr.n_blocks() * (bsz as int) <= pre_alloc.n_blocks() * (bsz as int)
                        + 557056 + 32 + 65536,
                    bsz as int >= 32,
                    buf_mgr.frontier() == buf_mgr.n_blocks() * (bsz as int),
                    pre_alloc.frontier() == pre_alloc.n_blocks() * (bsz as int),
            ;
            assert((k + 1) * 20000 == k * 20000 + 20000) by (nonlinear_arith);
            assert((k + 1) * 20000 * (bsz as int) == k * 20000 * (bsz as int) + 20000 * (
            bsz as int)) by (nonlinear_arith);
            assert(size + 32 + (bsz as int) <= 20000 * (bsz as int)) by (nonlinear_arith)
                requires
                    size <= 557056,
                    bsz as int >= 32,
            ;
        }
        let nid: u64 = crate::addr_to_nid(addr);
        let ghost pre_inodes = inodes@;
        {
            let ino = &mut inodes[k];
            ino.meta.inner.nid = nid;
        }
        proof {
            assert forall|idx: int|
                0 <= idx < old(inodes)@.len() implies nid_only_changed(
                old(inodes)@[idx],
                #[trigger] inodes@[idx],
            ) by {
                if idx != k {
                    assert(inodes@[idx] == pre_inodes[idx]);
                }
            }
            // this inode's freshly recorded region
            assert(size as int == spec_slot_bytes(old(inodes)@[k as int])) by {
                assert(nid_only_changed(old(inodes)@[k as int], pre_inodes[k as int]));
            }
            assert(nid * 32 == addr);
            assert forall|idx: int|
                0 <= idx < k + 1 implies #[trigger] buf_mgr.regions@[init_regions.len() + idx]
                == (
                inodes@[idx].meta.inner.nid * 32,
                crate::utils::spec_round_up(spec_slot_bytes(old(inodes)@[idx]), 32),
            ) by {
                if idx < k {
                    assert(inodes@[idx] == pre_inodes[idx]);
                    assert(buf_mgr.regions@[init_regions.len() + idx] == pre_alloc.regions@[
                        init_regions.len() + idx
                    ]);
                }
            }
        }
        k = k + 1;
    }
    Ok(())
}


/// The on-disk record an inode serialises to, as a spec-level value.
pub open spec fn spec_codexfs_inode(compress: bool, ino: Inode) -> CodexFsInode {
    CodexFsInode {
        mode: ino.meta.mode,
        nlink: ino.meta.inner.nlink,
        size: match ino.itype {
            IType::File(f) => f.size,
            _ => ino.meta.inner.meta_size.unwrap(),
        },
        ino: ino.meta.ino,
        uid: ino.meta.uid,
        gid: ino.meta.gid,
        blk_id: match ino.itype {
            IType::File(f) => if f.inner.blk_id is Some {
                f.inner.blk_id.unwrap()
            } else {
                0
            },
            _ => 0,
        },
        u: match ino.itype {
            IType::File(f) => if compress {
                f.inner.extents@.len() as u16
            } else {
                f.inner.blk_off.unwrap() as u16
            },
            _ => 0,
        },
    }
}

/// What the inode dumper owes for one inode: its record bytes sit in its
/// slot, a regular file's extent records follow in its tail, and a
/// symlink's tail carries exactly its target (whose length is its recorded
/// size).
pub open spec fn inode_dumped(img: Seq<u8>, compress: bool, ino: Inode) -> bool {
    let nid = ino.meta.inner.nid as int;
    &&& nid * 32 + 32 <= img.len()
    &&& img.subrange(nid * 32, nid * 32 + 32) == spec_codexfs_inode(compress, ino).spec_encode()
    &&& (ino.itype matches IType::File(f) ==> ((nid + 1) * 32 + f.inner.extents@.len() * 8
        <= img.len() && (forall|e: int|
        0 <= e < f.inner.extents@.len() ==> #[trigger] img.subrange(
            (nid + 1) * 32 + e * 8,
            (nid + 1) * 32 + e * 8 + 8,
        ) == f.inner.extents@[e].spec_encode())))
    &&& (ino.itype matches IType::SymLink(sl) ==> (sl.target matches Some(t) && {
        &&& ino.meta.inner.meta_size == Some(t@.len() as u32)
        &&& t@.len() <= u16::MAX
        &&& (nid + 1) * 32 + t@.len() <= img.len()
        &&& img.subrange((nid + 1) * 32, (nid + 1) * 32 + t@.len() as int) == t@
    }))
    &&& (ino.itype is Dir ==> ino.meta.inner.meta_size is Some)
}

/// One more write inside inode `k`'s slot leaves every earlier inode's
/// dumped bytes in place: the slots are pairwise disjoint.
pub(crate) proof fn lemma_dump_claims_preserved(
    pre: Seq<u8>,
    post: Seq<u8>,
    compress: bool,
    inodes: Seq<Inode>,
    upto: int,
    wstart: int,
    wlen: int,
    owner_start: int,
    owner_bytes: int,
)
    requires
        0 <= upto <= inodes.len(),
        forall|j: int| 0 <= j < upto ==> #[trigger] inode_dumped(pre, compress, inodes[j]),
        post.len() >= pre.len(),
        forall|x: int|
            0 <= x < pre.len() && !(wstart <= x < wstart + wlen) ==> #[trigger] post[x] == pre[x],
        owner_start <= wstart,
        wstart + wlen <= owner_start + owner_bytes,
        forall|j: int|
            0 <= j < upto ==> (#[trigger] inodes[j].meta.inner.nid as int) * 32
                + spec_slot_bytes(inodes[j]) <= owner_start || owner_start + owner_bytes
                <= inodes[j].meta.inner.nid as int * 32,
    ensures
        forall|j: int| 0 <= j < upto ==> #[trigger] inode_dumped(post, compress, inodes[j]),
{
    assert forall|j: int| 0 <= j < upto implies #[trigger] inode_dumped(
        post,
        compress,
        inodes[j],
    ) by {
        let ino = inodes[j];
        let nid = ino.meta.inner.nid as int;
        assert(inode_dumped(pre, compress, ino));
        assert(spec_slot_bytes(ino) >= 32);
        assert(nid * 32 + spec_slot_bytes(ino) <= owner_start || owner_start + owner_bytes
            <= nid * 32);
        assert(post.subrange(nid * 32, nid * 32 + 32) =~= pre.subrange(
            nid * 32,
            nid * 32 + 32,
        ));
        match ino.itype {
            IType::File(f) => {
                assert forall|e: int|
                    0 <= e < f.inner.extents@.len() implies #[trigger] post.subrange(
                    (nid + 1) * 32 + e * 8,
                    (nid + 1) * 32 + e * 8 + 8,
                ) == f.inner.extents@[e].spec_encode() by {
                    assert(pre.subrange((nid + 1) * 32 + e * 8, (nid + 1) * 32 + e * 8 + 8)
                        == f.inner.extents@[e].spec_encode());
                    assert((nid + 1) * 32 + e * 8 + 8 <= nid * 32 + spec_slot_bytes(ino));
                    assert(post.subrange((nid + 1) * 32 + e * 8, (nid + 1) * 32 + e * 8 + 8)
                        =~= pre.subrange((nid + 1) * 32 + e * 8, (nid + 1) * 32 + e * 8 + 8));
                }
                assert(inode_dumped(post, compress, ino));
            },
            IType::SymLink(sl) => {
                let t = sl.target.unwrap();
                assert((nid + 1) * 32 + t@.len() <= nid * 32 + spec_slot_bytes(ino));
                assert(post.subrange((nid + 1) * 32, (nid + 1) * 32 + t@.len() as int)
                    =~= pre.subrange((nid + 1) * 32, (nid + 1) * 32 + t@.len() as int));
                assert(inode_dumped(post, compress, ino));
            },
            IType::Dir(_) => {
                assert(inode_dumped(post, compress, ino));
            },
        }
    }
}

/// What the inode dumper owes for one directory beyond `inode_dumped`:
/// the bytes in its tail are exactly `spec_dir_tail` over its dentry list,
/// its own nid and its parent's nid, and their length is its recorded
/// meta size.
pub open spec fn dir_tail_dumped(img: Seq<u8>, inodes: Seq<Inode>, j: int) -> bool {
    inodes[j].itype matches IType::Dir(d) ==> (d.inner.parent matches Some(p) && p
        < inodes.len() && ({
        let nid = inodes[j].meta.inner.nid as int;
        let tail = spec_dir_tail(
            inodes,
            d.inner.dentries@,
            inodes[j].meta.inner.nid,
            inodes[p as int].meta.inner.nid,
        );
        &&& (inodes[j].meta.inner.meta_size matches Some(m) && m as int == tail.len())
        &&& (nid + 1) * 32 + tail.len() <= img.len()
        &&& img.subrange((nid + 1) * 32, (nid + 1) * 32 + tail.len() as int) == tail
    }))
}

/// One more write inside inode `k`'s slot leaves every earlier directory's
/// dumped tail bytes in place: the slots are pairwise disjoint.
pub(crate) proof fn lemma_dir_tail_claims_preserved(
    pre: Seq<u8>,
    post: Seq<u8>,
    inodes: Seq<Inode>,
    upto: int,
    wstart: int,
    wlen: int,
    owner_start: int,
    owner_bytes: int,
)
    requires
        0 <= upto <= inodes.len(),
        forall|j: int| 0 <= j < upto ==> #[trigger] dir_tail_dumped(pre, inodes, j),
        post.len() >= pre.len(),
        forall|x: int|
            0 <= x < pre.len() && !(wstart <= x < wstart + wlen) ==> #[trigger] post[x] == pre[x],
        owner_start <= wstart,
        wstart + wlen <= owner_start + owner_bytes,
        forall|j: int|
            0 <= j < upto ==> (#[trigger] inodes[j].meta.inner.nid as int) * 32
                + spec_slot_bytes(inodes[j]) <= owner_start || owner_start + owner_bytes
                <= inodes[j].meta.inner.nid as int * 32,
    ensures
        forall|j: int| 0 <= j < upto ==> #[trigger] dir_tail_dumped(post, inodes, j),
{
    assert forall|j: int| 0 <= j < upto implies #[trigger] dir_tail_dumped(
        post,
        inodes,
        j,
    ) by {
        let ino = inodes[j];
        assert(dir_tail_dumped(pre, inodes, j));
        match ino.itype {
            IType::Dir(d) => {
                let nid = ino.meta.inner.nid as int;
                let p = d.inner.parent.unwrap();
                let tail = spec_dir_tail(
                    inodes,
                    d.inner.dentries@,
                    ino.meta.inner.nid,
                    inodes[p as int].meta.inner.nid,
                );
                assert(nid * 32 + spec_slot_bytes(ino) <= owner_start || owner_start
                    + owner_bytes <= nid * 32);
                assert((nid + 1) * 32 + tail.len() <= nid * 32 + spec_slot_bytes(ino));
                assert(post.subrange((nid + 1) * 32, (nid + 1) * 32 + tail.len() as int)
                    =~= pre.subrange((nid + 1) * 32, (nid + 1) * 32 + tail.len() as int));
            },
            _ => {},
        }
    }
}

/// The on-disk record of an inode.  The union field carries the extent
/// count of a regular file in a compressed image and the intra-block byte
/// offset in an uncompressed one; other kinds store zero.
pub fn codexfs_inode_of(
    sb: &crate::sb::SuperBlock,
    inode: &Inode,
) -> (r: Result<CodexFsInode, crate::error::CodexFsError>)
    ensures
        r matches Ok(rec) ==> rec == spec_codexfs_inode(sb.compress, *inode),
        r is Err ==> r == Err::<CodexFsInode, crate::error::CodexFsError>(
            crate::error::CodexFsError::FormatError,
        ),
        r is Ok <==> (match inode.itype {
            IType::File(f) => (sb.compress ==> f.inner.extents@.len() <= u16::MAX) && (
            !sb.compress ==> (f.inner.blk_off matches Some(b) && b <= u16::MAX)),
            _ => inode.meta.inner.meta_size is Some,
        }),
{
    let mut blk_id: u32 = 0;
    let mut u: u16 = 0;
    let size: u32;
    match &inode.itype {
        IType::File(f) => {
            blk_id = match f.inner.blk_id {
                Some(b) => b,
                None => 0,
            };
            if sb.compress {
                if f.inner.extents.len() > u16::MAX as usize {
                    return Err(crate::error::CodexFsError::FormatError);
                }
                u = f.inner.extents.len() as u16;
            } else {
                let boff = match f.inner.blk_off {
                    Some(b) => b,
                    None => {
                        return Err(crate::error::CodexFsError::FormatError);
                    },
                };
                if boff > u16::MAX as u32 {
                    return Err(crate::error::CodexFsError::FormatError);
                }
                u = boff as u16;
            }
            size = f.size;
        },
        _ => {
            size = match inode.meta.inner.meta_size {
                Some(m) => m,
                None => {
                    return Err(crate::error::CodexFsError::FormatError);
                },
            };
        },
    }
    Ok(
        CodexFsInode {
            mode: inode.meta.mode,
            nlink: inode.meta.inner.nlink,
            size,
            ino: inode.meta.ino,
            uid: inode.meta.uid,
            gid: inode.meta.gid,
            blk_id,
            u,
        },
    )
}

/// The serialised child dirents from index `i` on, with `nameoff` the
/// running name offset.
pub open spec fn spec_dirents_bytes(
    inodes: Seq<Inode>,
    dentries: Seq<Dentry>,
    i: int,
    nameoff: int,
) -> Seq<u8>
    decreases dentries.len() - i,
{
    if i < 0 || i >= dentries.len() {
        Seq::empty()
    } else {
        (crate::layout::CodexFsDirent {
            nid: inodes[dentries[i].inode_idx as int].meta.inner.nid,
            nameoff: nameoff as u16,
            file_type: dentries[i].file_type,
            reserved: 0,
        }).spec_encode() + spec_dirents_bytes(
            inodes,
            dentries,
            i + 1,
            nameoff + dentries[i].file_name@.len(),
        )
    }
}

/// The concatenated child names from index `i` on.
pub open spec fn spec_names_bytes(dentries: Seq<Dentry>, i: int) -> Seq<u8>
    decreases dentries.len() - i,
{
    if i < 0 || i >= dentries.len() {
        Seq::empty()
    } else {
        dentries[i].file_name@ + spec_names_bytes(dentries, i + 1)
    }
}

/// A directory's on-disk tail: the `.` and `..` dirents, one dirent per
/// child with its slot's nid and running name offset, then the name bytes.
pub open spec fn spec_dir_tail(
    inodes: Seq<Inode>,
    dentries: Seq<Dentry>,
    self_nid: u64,
    parent_nid: u64,
) -> Seq<u8> {
    let base = (dentries.len() + 2) * 12int;
    (crate::layout::CodexFsDirent {
        nid: self_nid,
        nameoff: base as u16,
        file_type: crate::layout::CodexFsFileType::Dir,
        reserved: 0,
    }).spec_encode() + (crate::layout::CodexFsDirent {
        nid: parent_nid,
        nameoff: (base + 1) as u16,
        file_type: crate::layout::CodexFsFileType::Dir,
        reserved: 0,
    }).spec_encode() + spec_dirents_bytes(inodes, dentries, 0, base + 3) + seq![46u8] + seq![
        46u8,
        46u8,
    ] + spec_names_bytes(dentries, 0)
}

/// Serialise a directory's tail: one dirent for `.`, one for `..`, one per
/// child, then the name bytes; each dirent's `nameoff` points at its name:
/// exactly `spec_dir_tail`.
fn build_dir_tail(
    inodes: &Vec<Inode>,
    d: &Dir,
    self_nid: u64,
    parent_nid: u64,
) -> (r: Result<Vec<u8>, crate::error::CodexFsError>)
    ensures
        r matches Ok(t) ==> (t@ == spec_dir_tail(inodes@, d.inner.dentries@, self_nid, parent_nid)
            && t@.len() >= 27),
        r is Err ==> r == Err::<Vec<u8>, crate::error::CodexFsError>(
            crate::error::CodexFsError::FormatError,
        ),
{
    let ghost des = d.inner.dentries@;
    let ndent = d.inner.dentries.len();
    if ndent > ((u16::MAX as usize) - 36) / 12 {
        return Err(crate::error::CodexFsError::FormatError);
    }
    let ghost base: int = (des.len() + 2) * 12int;
    let mut nameoff: u32 = ((ndent as u32) + 2) * 12;
    let mut dirents: Vec<u8> = Vec::new();
    let mut names: Vec<u8> = Vec::new();
    let dot = crate::layout::CodexFsDirent {
        nid: self_nid,
        nameoff: nameoff as u16,
        file_type: CodexFsFileType::Dir,
        reserved: 0,
    };
    let ghost dots_enc = dot.spec_encode() + (crate::layout::CodexFsDirent {
        nid: parent_nid,
        nameoff: (base + 1) as u16,
        file_type: CodexFsFileType::Dir,
        reserved: 0,
    }).spec_encode();
    let mut enc = dot.encode();
    dirents.append(&mut enc);
    names.push(46u8);
    nameoff = nameoff + 1;
    let dotdot = crate::layout::CodexFsDirent {
        nid: parent_nid,
        nameoff: nameoff as u16,
        file_type: CodexFsFileType::Dir,
        reserved: 0,
    };
    let mut enc2 = dotdot.encode();
    dirents.append(&mut enc2);
    names.push(46u8);
    names.push(46u8);
    nameoff = nameoff + 2;
    proof {
        assert(dirents@ =~= dots_enc);
        assert(names@ =~= seq![46u8] + seq![46u8, 46u8]);
    }
    let mut k: usize = 0;
    while k < ndent
        invariant
            k <= ndent,
            ndent == des.len(),
            des == d.inner.dentries@,
            base == (des.len() + 2) * 12,
            nameoff <= u16::MAX,
            dirents@.len() == 12 * (k + 2),
            names@.len() >= 3,
            dirents@ + spec_dirents_bytes(inodes@, des, k as int, nameoff as int) == dots_enc
                + spec_dirents_bytes(inodes@, des, 0, base + 3),
            names@ + spec_names_bytes(des, k as int) == seq![46u8] + seq![46u8, 46u8]
                + spec_names_bytes(des, 0),
        decreases ndent - k,
    {
        let de = &d.inner.dentries[k];
        if de.inode_idx >= inodes.len() {
            return Err(crate::error::CodexFsError::FormatError);
        }
        if de.file_name.len() > u16::MAX as usize || nameoff > u16::MAX as u32 - (
        de.file_name.len() as u32) {
            return Err(crate::error::CodexFsError::FormatError);
        }
        let child_nid = inodes[de.inode_idx].meta.inner.nid;
        let rec = crate::layout::CodexFsDirent {
            nid: child_nid,
            nameoff: nameoff as u16,
            file_type: de.file_type,
            reserved: 0,
        };
        let ghost pre_dirents = dirents@;
        let ghost pre_names = names@;
        let ghost pre_no: int = nameoff as int;
        let mut enc3 = rec.encode();
        dirents.append(&mut enc3);
        let mut namecopy = copy_u8_vec(&de.file_name);
        names.append(&mut namecopy);
        nameoff = nameoff + (de.file_name.len() as u32);
        proof {
            assert(spec_dirents_bytes(inodes@, des, k as int, pre_no) == rec.spec_encode()
                + spec_dirents_bytes(inodes@, des, k as int + 1, pre_no + des[k as int].file_name@.len()));
            assert(dirents@ =~= pre_dirents + rec.spec_encode());
            assert(dirents@ + spec_dirents_bytes(inodes@, des, k as int + 1, nameoff as int)
                =~= pre_dirents + spec_dirents_bytes(inodes@, des, k as int, pre_no));
            assert(spec_names_bytes(des, k as int) == des[k as int].file_name@
                + spec_names_bytes(des, k as int + 1));
            assert(names@ =~= pre_names + des[k as int].file_name@);
            assert(names@ + spec_names_bytes(des, k as int + 1) =~= pre_names
                + spec_names_bytes(des, k as int));
        }
        k = k + 1;
    }
    proof {
        assert(spec_dirents_bytes(inodes@, des, ndent as int, nameoff as int)
            =~= Seq::<u8>::empty());
        assert(spec_names_bytes(des, ndent as int) =~= Seq::<u8>::empty());
        assert(dirents@ =~= dots_enc + spec_dirents_bytes(inodes@, des, 0, base + 3));
        assert(names@ =~= seq![46u8] + seq![46u8, 46u8] + spec_names_bytes(des, 0));
    }
    dirents.append(&mut names);
    proof {
        assert(dirents@ =~= spec_dir_tail(inodes@, des, self_nid, parent_nid));
    }
    Ok(dirents)
}

/// Write every inode's record and variable tail into the image: extent
/// tables for regular files, dirent tails for directories, target bytes
/// for symlinks.  The slots are pairwise disjoint, so on success every
/// inode's record bytes sit decoded-equal in its slot, every file's extent
/// records follow in its tail, and every symlink's tail holds its target
/// (`inode_dumped`).
#[verifier::loop_isolation(false)]
#[verifier::rlimit(100)]
pub fn mkfs_dump_inode(
    sb: &crate::sb::SuperBlock,
    img: &mut crate::image::Image,
    inodes: &Vec<Inode>,
) -> (r: Result<(), crate::error::CodexFsError>)
    requires
        old(img).data@.len() <= usize::MAX,
        forall|k1: int, k2: int|
            0 <= k1 < inodes@.len() && 0 <= k2 < inodes@.len() && k1 != k2 ==> ((
            #[trigger] inodes@[k1].meta.inner.nid as int) * 32 + spec_slot_bytes(inodes@[k1])
                <= (#[trigger] inodes@[k2].meta.inner.nid as int) * 32 || inodes@[
                k2
            ].meta.inner.nid as int * 32 + spec_slot_bytes(inodes@[k2]) <= inodes@[
                k1
            ].meta.inner.nid as int * 32),
    ensures
        r is Err ==> (r == Err::<(), crate::error::CodexFsError>(
            crate::error::CodexFsError::FormatError,
        ) || r == Err::<(), crate::error::CodexFsError>(
            crate::error::CodexFsError::IoError,
        )),
        r is Ok ==> final(img).data@.len() >= old(img).data@.len(),
        r is Ok ==> forall|k: int|
            0 <= k < inodes@.len() ==> #[trigger] inode_dumped(
                final(img).data@,
                sb.compress,
                inodes@[k],
            ),
        r is Ok ==> forall|k: int|
            0 <= k < inodes@.len() ==> #[trigger] dir_tail_dumped(final(img).data@, inodes@, k),
        r is Ok ==> (forall|x: int|
            0 <= x < old(img).data@.len() && (forall|k: int|
                0 <= k < inodes@.len() ==> !((#[trigger] inodes@[k].meta.inner.nid as int) * 32
                    <= x < inodes@[k].meta.inner.nid as int * 32 + spec_slot_bytes(
                    inodes@[k],
                ))) ==> #[trigger] final(img).data@[x] == old(img).data@[x]),
{
    let n = inodes.len();
    let mut k: usize = 0;
    while k < n
        invariant
            k <= n,
            n == inodes@.len(),
            img.data@.len() >= old(img).data@.len(),
            forall|j: int|
                0 <= j < k ==> #[trigger] inode_dumped(img.data@, sb.compress, inodes@[j]),
            forall|j: int| 0 <= j < k ==> #[trigger] dir_tail_dumped(img.data@, inodes@, j),
            forall|x: int|
                0 <= x < old(img).data@.len() && (forall|k2: int|
                    0 <= k2 < inodes@.len() ==> !((#[trigger] inodes@[k2].meta.inner.nid as int)
                        * 32 <= x < inodes@[k2].meta.inner.nid as int * 32 + spec_slot_bytes(
                        inodes@[k2],
                    ))) ==> #[trigger] img.data@[x] == old(img).data@[x],
        decreases n - k,
    {
        let nid = inodes[k].meta.inner.nid;
        if nid > u64::MAX / 32 - 100000 {
            return Err(crate::error::CodexFsError::FormatError);
        }
        let ghost gnid = nid as int;
        let ghost slot = spec_slot_bytes(inodes@[k as int]);
        let ghost iter_img = img.data@;
        let rec_off: u64 = nid * 32;
        let meta_off: u64 = (nid + 1) * 32;
        match &inodes[k].itype {
            IType::File(f) => {
                let ne = f.inner.extents.len();
                if ne > u16::MAX as usize {
                    return Err(crate::error::CodexFsError::FormatError);
                }
                let mut e: usize = 0;
                while e < ne
                    invariant
                        e <= ne,
                        ne <= u16::MAX,
                        ne == f.inner.extents@.len(),
                        meta_off == (nid + 1) * 32,
                        nid <= u64::MAX / 32 - 100000,
                        img.data@.len() >= old(img).data@.len(),
                        forall|j: int|
                            0 <= j < k ==> #[trigger] inode_dumped(
                                img.data@,
                                sb.compress,
                                inodes@[j],
                            ),
                        forall|j: int|
                            0 <= j < k ==> #[trigger] dir_tail_dumped(img.data@, inodes@, j),
                        forall|p: int|
                            0 <= p < e ==> ((gnid + 1) * 32 + p * 8 + 8 <= img.data@.len()
                                && #[trigger] img.data@.subrange(
                                (gnid + 1) * 32 + p * 8,
                                (gnid + 1) * 32 + p * 8 + 8,
                            ) == f.inner.extents@[p].spec_encode()),
                        img.data@.len() >= iter_img.len(),
                        forall|x: int|
                            0 <= x < iter_img.len() && !(gnid * 32 <= x < gnid * 32 + slot)
                                ==> #[trigger] img.data@[x] == iter_img[x],
                    decreases ne - e,
                {
                    let bytes = f.inner.extents[e].encode();
                    let woff_wide: u64 = meta_off + (e as u64) * 8;
                    if woff_wide > (usize::MAX as u64) - 8 {
                        return Err(crate::error::CodexFsError::IoError);
                    }
                    let ghost pre_img = img.data@;
                    img.write_all_at(&bytes, woff_wide);
                    proof {
                        crate::image::lemma_spec_write_untouched(
                            pre_img,
                            woff_wide as int,
                            bytes@,
                        );
                        lemma_dump_claims_preserved(
                            pre_img,
                            img.data@,
                            sb.compress,
                            inodes@,
                            k as int,
                            woff_wide as int,
                            8,
                            gnid * 32,
                            slot,
                        );
                        lemma_dir_tail_claims_preserved(
                            pre_img,
                            img.data@,
                            inodes@,
                            k as int,
                            woff_wide as int,
                            8,
                            gnid * 32,
                            slot,
                        );
                        assert forall|x: int|
                            0 <= x < iter_img.len() && !(gnid * 32 <= x < gnid * 32 + slot)
                            implies img.data@[x] == iter_img[x] by {
                            assert(x < pre_img.len());
                            assert(gnid * 32 <= woff_wide as int && woff_wide as int + 8
                                <= gnid * 32 + slot);
                            assert(!(woff_wide as int <= x < woff_wide as int + 8));
                            assert(crate::image::spec_write(
                                pre_img,
                                woff_wide as int,
                                bytes@,
                            )[x] == pre_img[x]);
                            assert(img.data@[x] == pre_img[x]);
                        }

                        assert(img.data@.subrange(
                            (gnid + 1) * 32 + e as int * 8,
                            (gnid + 1) * 32 + e as int * 8 + 8,
                        ) =~= bytes@);
                        assert forall|p: int|
                            0 <= p < e implies ((gnid + 1) * 32 + p * 8 + 8 <= img.data@.len()
                            && #[trigger] img.data@.subrange(
                            (gnid + 1) * 32 + p * 8,
                            (gnid + 1) * 32 + p * 8 + 8,
                        ) == f.inner.extents@[p].spec_encode()) by {
                            assert(img.data@.subrange(
                                (gnid + 1) * 32 + p * 8,
                                (gnid + 1) * 32 + p * 8 + 8,
                            ) =~= pre_img.subrange(
                                (gnid + 1) * 32 + p * 8,
                                (gnid + 1) * 32 + p * 8 + 8,
                            ));
                        }
                    }
                    e = e + 1;
                }
            },
            IType::Dir(d) => {
                let parent_idx = match d.inner.parent {
                    Some(p) => p,
                    None => {
                        return Err(crate::error::CodexFsError::FormatError);
                    },
                };
                if parent_idx >= inodes.len() {
                    return Err(crate::error::CodexFsError::FormatError);
                }
                let parent_nid = inodes[parent_idx].meta.inner.nid;
                let tail = match build_dir_tail(inodes, d, nid, parent_nid) {
                    Ok(t) => t,
                    Err(e2) => {
                        return Err(e2);
                    },
                };
                match inodes[k].meta.inner.meta_size {
                    Some(m) => {
                        if tail.len() != m as usize {
                            return Err(crate::error::CodexFsError::FormatError);
                        }
                    },
                    None => {
                        return Err(crate::error::CodexFsError::FormatError);
                    },
                }
                if meta_off > (usize::MAX as u64) - (tail.len() as u64) {
                    return Err(crate::error::CodexFsError::IoError);
                }
                let ghost pre_img = img.data@;
                img.write_all_at(&tail, meta_off);
                proof {
                    crate::image::lemma_spec_write_untouched(pre_img, meta_off as int, tail@);
                    lemma_dump_claims_preserved(
                        pre_img,
                        img.data@,
                        sb.compress,
                        inodes@,
                        k as int,
                        meta_off as int,
                        tail@.len() as int,
                        gnid * 32,
                        slot,
                    );
                    lemma_dir_tail_claims_preserved(
                        pre_img,
                        img.data@,
                        inodes@,
                        k as int,
                        meta_off as int,
                        tail@.len() as int,
                        gnid * 32,
                        slot,
                    );
                    assert forall|x: int|
                        0 <= x < iter_img.len() && !(gnid * 32 <= x < gnid * 32 + slot)
                        implies img.data@[x] == iter_img[x] by {
                        assert(x < pre_img.len());
                        assert(gnid * 32 <= meta_off as int && meta_off as int
                            + tail@.len() as int <= gnid * 32 + slot);
                        assert(!(meta_off as int <= x < meta_off as int + tail@.len()));
                        assert(crate::image::spec_write(pre_img, meta_off as int, tail@)[x]
                            == pre_img[x]);
                        assert(img.data@[x] == pre_img[x]);
                    }
                    assert(img.data@.subrange(
                        (gnid + 1) * 32,
                        (gnid + 1) * 32 + tail@.len() as int,
                    ) =~= tail@);
                    assert(dir_tail_dumped(img.data@, inodes@, k as int));
                }
            },
            IType::SymLink(sl) => {
                let target = match &sl.target {
                    Some(t) => t,
                    None => {
                        return Err(crate::error::CodexFsError::FormatError);
                    },
                };
                match inodes[k].meta.inner.meta_size {
                    Some(m) => {
                        if m > u16::MAX as u32 || target.len() != m as usize {
                            return Err(crate::error::CodexFsError::FormatError);
                        }
                    },
                    None => {
                        return Err(crate::error::CodexFsError::FormatError);
                    },
                }
                if meta_off > (usize::MAX as u64) - (target.len() as u64) {
                    return Err(crate::error::CodexFsError::IoError);
                }
                let ghost pre_img = img.data@;
                img.write_all_at(target, meta_off);
                proof {
                    crate::image::lemma_spec_write_untouched(
                        pre_img,
                        meta_off as int,
                        target@,
                    );
                    lemma_dump_claims_preserved(
                        pre_img,
                        img.data@,
                        sb.compress,
                        inodes@,
                        k as int,
                        meta_off as int,
                        target@.len() as int,
                        gnid * 32,
                        slot,
                    );
                    lemma_dir_tail_claims_preserved(
                        pre_img,
                        img.data@,
                        inodes@,
                        k as int,
                        meta_off as int,
                        target@.len() as int,
                        gnid * 32,
                        slot,
                    );
                    assert forall|x: int|
                        0 <= x < iter_img.len() && !(gnid * 32 <= x < gnid * 32 + slot)
                        implies img.data@[x] == iter_img[x] by {
                        assert(x < pre_img.len());
                        assert(gnid * 32 <= meta_off as int && meta_off as int
                            + target@.len() as int <= gnid * 32 + slot);
                        assert(!(meta_off as int <= x < meta_off as int + target@.len()));
                        assert(crate::image::spec_write(pre_img, meta_off as int, target@)[x]
                            == pre_img[x]);
                        assert(img.data@[x] == pre_img[x]);
                    }

                    assert(img.data@.subrange(
                        (gnid + 1) * 32,
                        (gnid + 1) * 32 + target@.len() as int,
                    ) =~= target@);
                }
            },
        }
        let rec = match codexfs_inode_of(sb, &inodes[k]) {
            Ok(rr) => rr,
            Err(e2) => {
                return Err(e2);
            },
        };
        let bytes = rec.encode();
        if rec_off > (usize::MAX as u64) - 32 {
            return Err(crate::error::CodexFsError::IoError);
        }
        let ghost pre_img2 = img.data@;
        img.write_all_at(&bytes, rec_off);
        proof {
            crate::image::lemma_spec_write_untouched(pre_img2, rec_off as int, bytes@);
            lemma_dump_claims_preserved(
                pre_img2,
                img.data@,
                sb.compress,
                inodes@,
                k as int,
                rec_off as int,
                32,
                gnid * 32,
                slot,
            );
            lemma_dir_tail_claims_preserved(
                pre_img2,
                img.data@,
                inodes@,
                k as int,
                rec_off as int,
                32,
                gnid * 32,
                slot,
            );
            assert forall|x: int|
                0 <= x < iter_img.len() && !(gnid * 32 <= x < gnid * 32 + slot)
                implies img.data@[x] == iter_img[x] by {
                assert(x < pre_img2.len());
                assert(gnid * 32 <= rec_off as int && rec_off as int + 32 <= gnid * 32
                    + slot);
                assert(!(rec_off as int <= x < rec_off as int + 32));
                assert(crate::image::spec_write(pre_img2, rec_off as int, bytes@)[x]
                    == pre_img2[x]);
                assert(img.data@[x] == pre_img2[x]);
            }
            assert(img.data@.subrange(gnid * 32, gnid * 32 + 32) =~= bytes@);
            // this inode's tail bytes sit above its record and survive it
            match inodes@[k as int].itype {
                IType::File(f) => {
                    assert((gnid + 1) * 32 + f.inner.extents@.len() * 8 <= img.data@.len())
                        by {
                        if f.inner.extents@.len() > 0 {
                            let last = f.inner.extents@.len() - 1;
                            assert(pre_img2.subrange(
                                (gnid + 1) * 32 + last * 8,
                                (gnid + 1) * 32 + last * 8 + 8,
                            ) == f.inner.extents@[last].spec_encode());
                            assert((gnid + 1) * 32 + last * 8 + 8 <= pre_img2.len());
                        }
                    }
                    assert forall|p: int|
                        0 <= p < f.inner.extents@.len() implies ((gnid + 1) * 32 + p * 8 + 8
                        <= img.data@.len() && #[trigger] img.data@.subrange(
                        (gnid + 1) * 32 + p * 8,
                        (gnid + 1) * 32 + p * 8 + 8,
                    ) == f.inner.extents@[p].spec_encode()) by {
                        assert(img.data@.subrange(
                            (gnid + 1) * 32 + p * 8,
                            (gnid + 1) * 32 + p * 8 + 8,
                        ) =~= pre_img2.subrange(
                            (gnid + 1) * 32 + p * 8,
                            (gnid + 1) * 32 + p * 8 + 8,
                        ));
                    }
                },
                IType::SymLink(sl) => {
                    let t = sl.target.unwrap();
                    assert(img.data@.subrange((gnid + 1) * 32, (gnid + 1) * 32 + t@.len() as int)
                        =~= pre_img2.subrange(
                        (gnid + 1) * 32,
                        (gnid + 1) * 32 + t@.len() as int,
                    ));
                },
                IType::Dir(dd) => {
                    assert(dir_tail_dumped(pre_img2, inodes@, k as int));
                    let p = dd.inner.parent.unwrap();
                    let tail = spec_dir_tail(
                        inodes@,
                        dd.inner.dentries@,
                        inodes@[k as int].meta.inner.nid,
                        inodes@[p as int].meta.inner.nid,
                    );
                    assert(img.data@.subrange(
                        (gnid + 1) * 32,
                        (gnid + 1) * 32 + tail.len() as int,
                    ) =~= pre_img2.subrange(
                        (gnid + 1) * 32,
                        (gnid + 1) * 32 + tail.len() as int,
                    ));
                },
            }
            assert(inode_dumped(img.data@, sb.compress, inodes@[k as int]));
            assert(dir_tail_dumped(img.data@, inodes@, k as int));
            // this iteration wrote only inside its own slot
            assert forall|x: int|
                0 <= x < old(img).data@.len() && (forall|k2: int|
                    0 <= k2 < inodes@.len() ==> !((#[trigger] inodes@[k2].meta.inner.nid as int)
                        * 32 <= x < inodes@[k2].meta.inner.nid as int * 32 + spec_slot_bytes(
                        inodes@[k2],
                    ))) implies #[trigger] img.data@[x] == old(img).data@[x] by {
                assert(!(gnid * 32 <= x < gnid * 32 + slot)) by {
                    assert(!((inodes@[k as int].meta.inner.nid as int) * 32 <= x < inodes@[
                        k as int
                    ].meta.inner.nid as int * 32 + spec_slot_bytes(inodes@[k as int])));
                }
                assert(img.data@[x] == iter_img[x]);
                assert(iter_img[x] == old(img).data@[x]);
            }
        }
        k = k + 1;
    }
    Ok(())
}

} // verus!
