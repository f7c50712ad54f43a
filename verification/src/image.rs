use vstd::prelude::*;

verus! {

use crate::error::CodexFsError;
use crate::layout::zero_bytes;

/// The bytes a write leaves behind: the image is zero-extended so that the
/// write fits, then `buf` replaces the bytes at `off`.
pub open spec fn spec_write(data: Seq<u8>, off: int, buf: Seq<u8>) -> Seq<u8>
    recommends
        off >= 0,
{
    let padded = if data.len() >= off + buf.len() {
        data
    } else {
        data + zero_bytes((off + buf.len() - data.len()) as nat)
    };
    Seq::new(
        padded.len(),
        |i: int|
            if off <= i < off + buf.len() {
                buf[i - off]
            } else {
                padded[i]
            },
    )
}

/// The random-access backing store of an image, held in memory as plain
/// bytes.  Writing past the end zero-extends, as writes past the end of a
/// sparse file do.
pub struct Image {
    pub data: Vec<u8>,
}

impl Image {
    pub fn new() -> (r: Image)
        ensures
            r.data@.len() == 0,
    {
        Image { data: Vec::new() }
    }

    pub fn len(&self) -> (r: u64)
        requires
            self.data@.len() <= u64::MAX,
        ensures
            r == self.data@.len(),
    {
        self.data.len() as u64
    }

    /// Copy `buf` into the image at byte offset `offset`.
    pub fn write_all_at(&mut self, buf: &Vec<u8>, offset: u64)
        requires
            offset + buf@.len() <= usize::MAX,
        ensures
            final(self).data@ == spec_write(old(self).data@, offset as int, buf@),
            final(self).data@.len() >= old(self).data@.len(),
            final(self).data@.len() >= offset + buf@.len(),
    {
        let ghost target = spec_write(old(self).data@, offset as int, buf@);
        let off: usize = offset as usize;
        let blen: usize = buf.len();
        while self.data.len() < off + blen
            invariant
                off + blen <= usize::MAX,
                blen == buf@.len(),
                self.data@.len() >= old(self).data@.len(),
                self.data@.len() <= off + blen || self.data@ == old(self).data@,
                self.data@.len() >= old(self).data@.len() && (forall|j: int|
                    0 <= j < old(self).data@.len() ==> self.data@[j] == old(self).data@[j]),
                forall|j: int|
                    old(self).data@.len() <= j < self.data@.len() ==> self.data@[j] == 0u8,
            decreases off + blen - self.data@.len(),
        {
            self.data.push(0u8);
        }
        let ghost padded = if old(self).data@.len() >= offset + buf@.len() {
            old(self).data@
        } else {
            old(self).data@ + zero_bytes(
                (offset + buf@.len() - old(self).data@.len()) as nat,
            )
        };
        proof {
            assert(self.data@ =~= padded);
        }
        let mut i: usize = 0;
        while i < blen
            invariant
                i <= blen,
                blen == buf@.len(),
                off == offset as int,
                off + blen <= usize::MAX,
                self.data@.len() == padded.len(),
                padded.len() >= off + blen,
                target == spec_write(old(self).data@, offset as int, buf@),
                target.len() == padded.len(),
                forall|j: int| 0 <= j < off + i ==> self.data@[j] == target[j],
                forall|j: int| off + i <= j < padded.len() ==> self.data@[j] == padded[j],
                forall|j: int|
                    off + blen <= j < padded.len() ==> target[j] == padded[j],
                forall|j: int| off <= j < off + blen ==> target[j] == buf@[j - off],
            decreases blen - i,
        {
            self.data[off + i] = buf[i];
            i = i + 1;
        }
        proof {
            assert(self.data@ =~= target);
        }
    }

    /// Read exactly `len` bytes at `offset`; fails when the range is not
    /// wholly inside the image.
    pub fn read_exact_at(&self, offset: u64, len: usize) -> (r: Result<Vec<u8>, CodexFsError>)
        ensures
            r is Ok <==> offset + len <= self.data@.len(),
            r matches Ok(v) ==> v@ == self.data@.subrange(
                offset as int,
                offset as int + len as int,
            ),
            r is Err ==> r == Err::<Vec<u8>, CodexFsError>(CodexFsError::IoError),
    {
        let total: usize = self.data.len();
        if offset > total as u64 || len as u64 > total as u64 - offset {
            return Err(CodexFsError::IoError);
        }
        let off: usize = offset as usize;
        let mut out: Vec<u8> = Vec::new();
        let mut i: usize = 0;
        while i < len
            invariant
                i <= len,
                off == offset as int,
                total == self.data@.len(),
                off + len <= total,
                out@ == self.data@.subrange(off as int, off as int + i as int),
            decreases len - i,
        {
            out.push(self.data[off + i]);
            proof {
                assert(self.data@.subrange(off as int, off as int + i as int + 1)
                    =~= self.data@.subrange(off as int, off as int + i as int).push(
                    self.data@[off as int + i as int],
                ));
            }
            i = i + 1;
        }
        Ok(out)
    }
}


/// Right-alignment of a data block: writing a compressed payload at
/// `woff + margin` into an image that ends at or before `woff` leaves the
/// block holding its zero margin followed by the payload.
pub proof fn lemma_right_aligned_block(
    data: Seq<u8>,
    woff: int,
    margin: int,
    comp: Seq<u8>,
    bsz: int,
)
    requires
        0 <= woff,
        0 <= margin,
        comp.len() > 0,
        margin + comp.len() == bsz,
        data.len() <= woff,
    ensures
        spec_write(data, woff + margin, comp).subrange(woff, woff + bsz) =~= zero_bytes(
            margin as nat,
        ) + comp,
{
    let w = spec_write(data, woff + margin, comp);
    assert(w.len() == woff + margin + comp.len());
    assert forall|i: int| 0 <= i < bsz implies #[trigger] w.subrange(woff, woff + bsz)[i]
        == (zero_bytes(margin as nat) + comp)[i] by {
        if i < margin {
            assert(w[woff + i] == 0u8);
        } else {
            assert(w[woff + i] == comp[i - margin]);
        }
    }
}


/// A write changes nothing below the old length outside its own range.
pub proof fn lemma_spec_write_untouched(data: Seq<u8>, off: int, buf: Seq<u8>)
    requires
        off >= 0,
    ensures
        forall|x: int|
            0 <= x < data.len() && !(off <= x < off + buf.len())
                ==> #[trigger] spec_write(data, off, buf)[x] == data[x],
        spec_write(data, off, buf).len() >= data.len(),
{
}

} // verus!
