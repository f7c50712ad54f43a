use vstd::prelude::*;

verus! {

use vstd::arithmetic::power::pow;
use vstd::arithmetic::div_mod::{
    lemma_div_pos_is_pos, lemma_mod_bound, lemma_fundamental_div_mod,
    lemma_div_denominator,
};

/// The little-endian encoding of the `n` low bytes of `x`.
pub open spec fn le_bytes(x: int, n: nat) -> Seq<u8>
    decreases n,
{
    if n == 0 {
        Seq::empty()
    } else {
        seq![(x % 256) as u8] + le_bytes(x / 256, (n - 1) as nat)
    }
}

/// The integer that a little-endian byte string denotes.
pub open spec fn le_val(s: Seq<u8>) -> int
    decreases s.len(),
{
    if s.len() == 0 {
        0
    } else {
        s[0] + 256 * le_val(s.drop_first())
    }
}


proof fn lemma_pow256_unfold(n: nat)
    requires
        n > 0,
    ensures
        pow(256, n) == 256 * pow(256, (n - 1) as nat),
{
    reveal(vstd::arithmetic::power::pow);
}

pub proof fn lemma_le_bytes_len(x: int, n: nat)
    ensures
        le_bytes(x, n).len() == n,
    decreases n,
{
    if n > 0 {
        lemma_le_bytes_len(x / 256, (n - 1) as nat);
    }
}

pub proof fn lemma_le_val_bound(s: Seq<u8>)
    ensures
        0 <= le_val(s) < pow(256, s.len()),
    decreases s.len(),
{
    vstd::arithmetic::power::lemma_pow_positive(256, s.len());
    if s.len() > 0 {
        lemma_le_val_bound(s.drop_first());
        lemma_pow256_unfold(s.len());
    }
}

pub proof fn lemma_le_round_trip(x: int, n: nat)
    requires
        0 <= x < pow(256, n),
    ensures
        le_val(le_bytes(x, n)) == x,
    decreases n,
{
    if n == 0 {
        assert(pow(256, 0) == 1) by { vstd::arithmetic::power::lemma_pow0(256); }
    } else {
        lemma_mod_bound(x, 256);
        lemma_div_pos_is_pos(x, 256);
        lemma_fundamental_div_mod(x, 256);
        lemma_pow256_unfold(n);
        assert(x / 256 < pow(256, (n - 1) as nat)) by (nonlinear_arith)
            requires
                x < 256 * pow(256, (n - 1) as nat),
                x == 256 * (x / 256) + x % 256,
                x % 256 >= 0,
        ;
        lemma_le_round_trip(x / 256, (n - 1) as nat);
        lemma_le_bytes_len(x / 256, (n - 1) as nat);
        assert(le_bytes(x, n).drop_first() =~= le_bytes(x / 256, (n - 1) as nat));
    }
}

/// Append the `n`-byte little-endian form of `x` to `out`.
pub fn put_le(out: &mut Vec<u8>, x: u64, n: usize)
    ensures
        final(out)@ == old(out)@ + le_bytes(x as int, n as nat),
{
    let ghost gx = x as int;
    let mut v: u64 = x;
    let mut i: usize = 0;
    proof {
        assert(pow(256, 0) == 1) by { vstd::arithmetic::power::lemma_pow0(256); }
        lemma_le_bytes_prefix(gx, 0, n as nat);
    }
    while i < n
        invariant
            i <= n,
            gx == x as int,
            out@ == old(out)@ + le_bytes(gx, i as nat),
            v as int == gx / pow(256, i as nat),
        decreases n - i,
    {
        proof {
            lemma_le_bytes_snoc(gx, i as nat);
            vstd::arithmetic::power::lemma_pow_positive(256, i as nat);
            assert(gx >= 0);
            assert(pow(256, i as nat) > 0);
            lemma_div_denominator(gx, pow(256, i as nat), 256);
            lemma_pow256_unfold((i + 1) as nat);
            assert(pow(256, (i + 1) as nat) == pow(256, i as nat) * 256) by {
                vstd::arithmetic::mul::lemma_mul_is_commutative(256, pow(256, i as nat));
            }
        }
        out.push((v % 256) as u8);
        v = v / 256;
        i = i + 1;
    }
}

proof fn lemma_le_bytes_prefix(x: int, m: nat, n: nat)
    requires
        m <= n,
    ensures
        le_bytes(x, n).take(m as int) =~= le_bytes(x, m),
    decreases m,
{
    lemma_le_bytes_len(x, n);
    lemma_le_bytes_len(x, m);
    if m > 0 {
        lemma_le_bytes_prefix(x / 256, (m - 1) as nat, (n - 1) as nat);
        lemma_le_bytes_len(x / 256, (n - 1) as nat);
        lemma_le_bytes_len(x / 256, (m - 1) as nat);
    }
}

/// Extending the width by one appends the next byte of `x`.
proof fn lemma_le_bytes_snoc(x: int, n: nat)
    requires
        x >= 0,
    ensures
        le_bytes(x, (n + 1) as nat) =~= le_bytes(x, n).push(((x / pow(256, n)) % 256) as u8),
    decreases n,
{
    lemma_le_bytes_len(x, n);
    lemma_le_bytes_len(x, (n + 1) as nat);
    if n == 0 {
        assert(pow(256, 0) == 1) by { vstd::arithmetic::power::lemma_pow0(256); }
    } else {
        lemma_le_bytes_snoc(x / 256, (n - 1) as nat);
        lemma_le_bytes_len(x / 256, n as nat);
        lemma_pow256_unfold(n);
        vstd::arithmetic::power::lemma_pow_positive(256, (n - 1) as nat);
        lemma_div_denominator(x, 256, pow(256, (n - 1) as nat));
        assert(256 * pow(256, (n - 1) as nat) == pow(256, (n - 1) as nat) * 256) by {
            vstd::arithmetic::mul::lemma_mul_is_commutative(256, pow(256, (n - 1) as nat));
        }
    }
}

/// Read the `n`-byte little-endian integer at `off` in `buf`.
pub fn get_le(buf: &Vec<u8>, off: usize, n: usize) -> (r: u64)
    requires
        off + n <= buf@.len(),
        n <= 8,
    ensures
        r as int == le_val(buf@.subrange(off as int, off as int + n as int)),
{
    let ghost s = buf@.subrange(off as int, off as int + n as int);
    let blen: usize = buf.len();
    let mut acc: u64 = 0;
    let mut j: usize = n;
    proof {
        assert(s.subrange(n as int, n as int) =~= Seq::<u8>::empty());
        assert(pow(256, 0) == 1) by { vstd::arithmetic::power::lemma_pow0(256); }
    }
    while j > 0
        invariant
            j <= n,
            n <= 8,
            off + n <= blen,
            blen == buf@.len(),
            s == buf@.subrange(off as int, off as int + n as int),
            acc as int == le_val(s.subrange(j as int, n as int)),
            acc < pow(256, (n - j) as nat),
        decreases j,
    {
        proof {
            let tail = s.subrange(j as int, n as int);
            let whole = s.subrange(j - 1, n as int);
            assert(whole.drop_first() =~= tail);
            assert(whole[0] == s[j - 1]);
            lemma_le_val_bound(tail);
            let k = (n - j) as nat;
            vstd::arithmetic::power::lemma_pow1(256);
            vstd::arithmetic::power::lemma_pow_adds(256, k as nat, 1);
            vstd::arithmetic::mul::lemma_mul_is_commutative(pow(256, k), 256);
            assert((n - j + 1) as nat == k + 1);
            assert(pow(256, (k + 1) as nat) == 256 * pow(256, k));
            assert(acc as int * 256 + s[j - 1] < pow(256, (k + 1) as nat)) by (nonlinear_arith)
                requires
                    (acc as int) < pow(256, k),
                    s[j - 1] < 256,
                    pow(256, (k + 1) as nat) == 256 * pow(256, k),
            ;
            vstd::arithmetic::power::lemma_pow_increases(256, (k + 1) as nat, 8);
            assert(pow(256, 8) == 0x1_0000_0000_0000_0000) by {
                reveal_with_fuel(vstd::arithmetic::power::pow, 9);
            }
            assert(s[j - 1] == buf@[off + j - 1]);
        }
        let idx: usize = off + (j - 1);
        acc = acc * 256 + (buf[idx] as u64);
        j = j - 1;
    }
    proof {
        assert(s.subrange(0, n as int) =~= s);
    }
    acc
}


/// `n` zero bytes.
pub open spec fn zero_bytes(n: nat) -> Seq<u8> {
    Seq::new(n, |i: int| 0u8)
}

/// Append `n` zero bytes to `out`.
pub fn put_zeros(out: &mut Vec<u8>, n: usize)
    ensures
        final(out)@ == old(out)@ + zero_bytes(n as nat),
{
    let mut i: usize = 0;
    while i < n
        invariant
            i <= n,
            out@ == old(out)@ + zero_bytes(i as nat),
        decreases n - i,
    {
        out.push(0u8);
        proof {
            assert(old(out)@ + zero_bytes((i + 1) as nat) =~= (old(out)@ + zero_bytes(
                i as nat,
            )).push(0u8));
        }
        i = i + 1;
    }
    proof {
        assert(out@ =~= old(out)@ + zero_bytes(n as nat));
    }
}

/// Values of small powers of 256, for field-width reasoning.
pub proof fn lemma_pow256_vals()
    ensures
        pow(256, 1) == 0x100,
        pow(256, 2) == 0x1_0000,
        pow(256, 4) == 0x1_0000_0000,
        pow(256, 8) == 0x1_0000_0000_0000_0000,
{
    reveal_with_fuel(vstd::arithmetic::power::pow, 9);
}

pub const CODEXFS_MAGIC: u32 = 114514;

pub const CODEXFS_SUPERBLK_OFF: u64 = 0;

pub const CODEXFS_SB_BYTES: usize = 128;

pub const CODEXFS_INODE_BYTES: usize = 32;

pub const CODEXFS_DIRENT_BYTES: usize = 12;

pub const CODEXFS_EXTENT_BYTES: usize = 8;

/// Inode slots are 32 bytes, so slot indices shift by 5 bits.
pub const CODEXFS_ISLOT_BITS: u8 = 5;

/// Bit 0 of the superblock flag byte: image holds compressed data blocks.
pub const CODEXFS_FLAG_COMPRESSED: u8 = 1;

pub const S_IFMT: u16 = 0xf000;

pub const S_IFSOCK: u16 = 0xc000;

pub const S_IFLNK: u16 = 0xa000;

pub const S_IFREG: u16 = 0x8000;

pub const S_IFBLK: u16 = 0x6000;

pub const S_IFDIR: u16 = 0x4000;

pub const S_IFCHR: u16 = 0x2000;

pub const S_IFIFO: u16 = 0x1000;

#[derive(Clone, Copy, Debug, PartialEq, Eq, Structural)]
pub enum CodexFsFileType {
    Unknown,
    File,
    Dir,
    CharDevice,
    BlockDevice,
    Fifo,
    Socket,
    Symlink,
}

impl CodexFsFileType {
    pub fn is_file(self) -> (r: bool)
        ensures
            r == (self is File),
    {
        matches!(self, CodexFsFileType::File)
    }

    pub fn is_dir(self) -> (r: bool)
        ensures
            r == (self is Dir),
    {
        matches!(self, CodexFsFileType::Dir)
    }

    pub fn is_symlink(self) -> (r: bool)
        ensures
            r == (self is Symlink),
    {
        matches!(self, CodexFsFileType::Symlink)
    }

    pub fn is_block_device(self) -> (r: bool)
        ensures
            r == (self is BlockDevice),
    {
        matches!(self, CodexFsFileType::BlockDevice)
    }

    pub fn is_char_device(self) -> (r: bool)
        ensures
            r == (self is CharDevice),
    {
        matches!(self, CodexFsFileType::CharDevice)
    }

    pub fn is_fifo(self) -> (r: bool)
        ensures
            r == (self is Fifo),
    {
        matches!(self, CodexFsFileType::Fifo)
    }

    pub fn is_socket(self) -> (r: bool)
        ensures
            r == (self is Socket),
    {
        matches!(self, CodexFsFileType::Socket)
    }

    /// The on-disk byte for this file type.
    pub open spec fn spec_to_u8(self) -> u8 {
        match self {
            CodexFsFileType::Unknown => 0,
            CodexFsFileType::File => 1,
            CodexFsFileType::Dir => 2,
            CodexFsFileType::CharDevice => 3,
            CodexFsFileType::BlockDevice => 4,
            CodexFsFileType::Fifo => 5,
            CodexFsFileType::Socket => 6,
            CodexFsFileType::Symlink => 7,
        }
    }

    pub fn to_u8(self) -> (r: u8)
        ensures
            r == self.spec_to_u8(),
    {
        match self {
            CodexFsFileType::Unknown => 0,
            CodexFsFileType::File => 1,
            CodexFsFileType::Dir => 2,
            CodexFsFileType::CharDevice => 3,
            CodexFsFileType::BlockDevice => 4,
            CodexFsFileType::Fifo => 5,
            CodexFsFileType::Socket => 6,
            CodexFsFileType::Symlink => 7,
        }
    }

    /// The file type a dirent byte denotes; `Unknown` and out-of-range bytes
    /// are a format error.
    pub open spec fn spec_from_u8(v: u8) -> Option<CodexFsFileType> {
        if v == 1 {
            Some(CodexFsFileType::File)
        } else if v == 2 {
            Some(CodexFsFileType::Dir)
        } else if v == 3 {
            Some(CodexFsFileType::CharDevice)
        } else if v == 4 {
            Some(CodexFsFileType::BlockDevice)
        } else if v == 5 {
            Some(CodexFsFileType::Fifo)
        } else if v == 6 {
            Some(CodexFsFileType::Socket)
        } else if v == 7 {
            Some(CodexFsFileType::Symlink)
        } else {
            None
        }
    }

    pub fn from_u8(v: u8) -> (r: Option<CodexFsFileType>)
        ensures
            r == CodexFsFileType::spec_from_u8(v),
    {
        if v == 1 {
            Some(CodexFsFileType::File)
        } else if v == 2 {
            Some(CodexFsFileType::Dir)
        } else if v == 3 {
            Some(CodexFsFileType::CharDevice)
        } else if v == 4 {
            Some(CodexFsFileType::BlockDevice)
        } else if v == 5 {
            Some(CodexFsFileType::Fifo)
        } else if v == 6 {
            Some(CodexFsFileType::Socket)
        } else if v == 7 {
            Some(CodexFsFileType::Symlink)
        } else {
            None
        }
    }

    /// The file type encoded in the high nibble of a POSIX mode word.
    pub open spec fn spec_from_mode(mode: u16) -> Option<CodexFsFileType> {
        let t = mode / 0x1000;
        if t == 0x8 {
            Some(CodexFsFileType::File)
        } else if t == 0x4 {
            Some(CodexFsFileType::Dir)
        } else if t == 0x2 {
            Some(CodexFsFileType::CharDevice)
        } else if t == 0x6 {
            Some(CodexFsFileType::BlockDevice)
        } else if t == 0xc {
            Some(CodexFsFileType::Socket)
        } else if t == 0xa {
            Some(CodexFsFileType::Symlink)
        } else if t == 0x1 {
            Some(CodexFsFileType::Fifo)
        } else {
            None
        }
    }

    pub fn from_mode(mode: u16) -> (r: Option<CodexFsFileType>)
        ensures
            r == CodexFsFileType::spec_from_mode(mode),
    {
        let t = mode / 0x1000;
        if t == 0x8 {
            Some(CodexFsFileType::File)
        } else if t == 0x4 {
            Some(CodexFsFileType::Dir)
        } else if t == 0x2 {
            Some(CodexFsFileType::CharDevice)
        } else if t == 0x6 {
            Some(CodexFsFileType::BlockDevice)
        } else if t == 0xc {
            Some(CodexFsFileType::Socket)
        } else if t == 0xa {
            Some(CodexFsFileType::Symlink)
        } else if t == 0x1 {
            Some(CodexFsFileType::Fifo)
        } else {
            None
        }
    }
}

/// The superblock flag byte.
#[derive(Clone, Copy, Debug, PartialEq, Eq, Structural)]
pub struct CodexFsFlags(pub u8);

impl CodexFsFlags {
    pub open spec fn spec_compressed(self) -> bool {
        self.0 % 2 == 1
    }

    pub fn empty() -> (r: CodexFsFlags)
        ensures
            r.0 == 0,
            !r.spec_compressed(),
    {
        CodexFsFlags(0)
    }

    pub fn compressed() -> (r: CodexFsFlags)
        ensures
            r.0 == CODEXFS_FLAG_COMPRESSED,
            r.spec_compressed(),
    {
        CodexFsFlags(CODEXFS_FLAG_COMPRESSED)
    }

    pub fn contains_compressed(self) -> (r: bool)
        ensures
            r == self.spec_compressed(),
    {
        self.0 % 2 == 1
    }
}


/// The 128-byte on-disk superblock record.
#[derive(Clone, Copy, Debug, PartialEq, Eq, Structural)]
pub struct CodexFsSuperBlock {
    pub magic: u32,
    pub checksum: u32,
    pub blksz_bits: u8,
    pub root_nid: u64,
    pub inos: u32,
    pub islot_bits: u8,
    pub blocks: u32,
    pub end_data_blk_id: u32,
    pub end_data_blk_sz: u32,
    pub flags: CodexFsFlags,
}

impl CodexFsSuperBlock {
    pub open spec fn spec_encode(self) -> Seq<u8> {
        le_bytes(self.magic as int, 4) + le_bytes(self.checksum as int, 4) + le_bytes(
            self.blksz_bits as int,
            1,
        ) + le_bytes(self.root_nid as int, 8) + le_bytes(self.inos as int, 4) + le_bytes(
            self.islot_bits as int,
            1,
        ) + le_bytes(self.blocks as int, 4) + le_bytes(self.end_data_blk_id as int, 4) + le_bytes(
            self.end_data_blk_sz as int,
            4,
        ) + le_bytes(self.flags.0 as int, 1) + zero_bytes(93)
    }

    pub open spec fn spec_decode(s: Seq<u8>) -> CodexFsSuperBlock
        recommends
            s.len() == CODEXFS_SB_BYTES,
    {
        CodexFsSuperBlock {
            magic: le_val(s.subrange(0, 4)) as u32,
            checksum: le_val(s.subrange(4, 8)) as u32,
            blksz_bits: le_val(s.subrange(8, 9)) as u8,
            root_nid: le_val(s.subrange(9, 17)) as u64,
            inos: le_val(s.subrange(17, 21)) as u32,
            islot_bits: le_val(s.subrange(21, 22)) as u8,
            blocks: le_val(s.subrange(22, 26)) as u32,
            end_data_blk_id: le_val(s.subrange(26, 30)) as u32,
            end_data_blk_sz: le_val(s.subrange(30, 34)) as u32,
            flags: CodexFsFlags(le_val(s.subrange(34, 35)) as u8),
        }
    }

    pub proof fn lemma_encode_len(self)
        ensures
            self.spec_encode().len() == CODEXFS_SB_BYTES,
    {
        lemma_le_bytes_len(self.magic as int, 4);
        lemma_le_bytes_len(self.checksum as int, 4);
        lemma_le_bytes_len(self.blksz_bits as int, 1);
        lemma_le_bytes_len(self.root_nid as int, 8);
        lemma_le_bytes_len(self.inos as int, 4);
        lemma_le_bytes_len(self.islot_bits as int, 1);
        lemma_le_bytes_len(self.blocks as int, 4);
        lemma_le_bytes_len(self.end_data_blk_id as int, 4);
        lemma_le_bytes_len(self.end_data_blk_sz as int, 4);
        lemma_le_bytes_len(self.flags.0 as int, 1);
    }

    /// Decoding an encoded superblock recovers every field.
    pub proof fn lemma_round_trip(self)
        ensures
            CodexFsSuperBlock::spec_decode(self.spec_encode()) == self,
    {
        self.lemma_encode_len();
        lemma_le_bytes_len(self.magic as int, 4);
        lemma_le_bytes_len(self.checksum as int, 4);
        lemma_le_bytes_len(self.blksz_bits as int, 1);
        lemma_le_bytes_len(self.root_nid as int, 8);
        lemma_le_bytes_len(self.inos as int, 4);
        lemma_le_bytes_len(self.islot_bits as int, 1);
        lemma_le_bytes_len(self.blocks as int, 4);
        lemma_le_bytes_len(self.end_data_blk_id as int, 4);
        lemma_le_bytes_len(self.end_data_blk_sz as int, 4);
        lemma_le_bytes_len(self.flags.0 as int, 1);
        lemma_pow256_vals();
        let s = self.spec_encode();
        assert(s.subrange(0, 4) =~= le_bytes(self.magic as int, 4));
        lemma_le_round_trip(self.magic as int, 4);
        assert(s.subrange(4, 8) =~= le_bytes(self.checksum as int, 4));
        lemma_le_round_trip(self.checksum as int, 4);
        assert(s.subrange(8, 9) =~= le_bytes(self.blksz_bits as int, 1));
        lemma_le_round_trip(self.blksz_bits as int, 1);
        assert(s.subrange(9, 17) =~= le_bytes(self.root_nid as int, 8));
        lemma_le_round_trip(self.root_nid as int, 8);
        assert(s.subrange(17, 21) =~= le_bytes(self.inos as int, 4));
        lemma_le_round_trip(self.inos as int, 4);
        assert(s.subrange(21, 22) =~= le_bytes(self.islot_bits as int, 1));
        lemma_le_round_trip(self.islot_bits as int, 1);
        assert(s.subrange(22, 26) =~= le_bytes(self.blocks as int, 4));
        lemma_le_round_trip(self.blocks as int, 4);
        assert(s.subrange(26, 30) =~= le_bytes(self.end_data_blk_id as int, 4));
        lemma_le_round_trip(self.end_data_blk_id as int, 4);
        assert(s.subrange(30, 34) =~= le_bytes(self.end_data_blk_sz as int, 4));
        lemma_le_round_trip(self.end_data_blk_sz as int, 4);
        assert(s.subrange(34, 35) =~= le_bytes(self.flags.0 as int, 1));
        lemma_le_round_trip(self.flags.0 as int, 1);
    }

    pub fn encode(&self) -> (r: Vec<u8>)
        ensures
            r@ == self.spec_encode(),
            r@.len() == CODEXFS_SB_BYTES,
    {
        let mut out: Vec<u8> = Vec::new();
        put_le(&mut out, self.magic as u64, 4);
        put_le(&mut out, self.checksum as u64, 4);
        put_le(&mut out, self.blksz_bits as u64, 1);
        put_le(&mut out, self.root_nid, 8);
        put_le(&mut out, self.inos as u64, 4);
        put_le(&mut out, self.islot_bits as u64, 1);
        put_le(&mut out, self.blocks as u64, 4);
        put_le(&mut out, self.end_data_blk_id as u64, 4);
        put_le(&mut out, self.end_data_blk_sz as u64, 4);
        put_le(&mut out, self.flags.0 as u64, 1);
        put_zeros(&mut out, 93);
        proof {
            self.lemma_encode_len();
        lemma_le_bytes_len(self.magic as int, 4);
        lemma_le_bytes_len(self.checksum as int, 4);
        lemma_le_bytes_len(self.blksz_bits as int, 1);
        lemma_le_bytes_len(self.root_nid as int, 8);
        lemma_le_bytes_len(self.inos as int, 4);
        lemma_le_bytes_len(self.islot_bits as int, 1);
        lemma_le_bytes_len(self.blocks as int, 4);
        lemma_le_bytes_len(self.end_data_blk_id as int, 4);
        lemma_le_bytes_len(self.end_data_blk_sz as int, 4);
        lemma_le_bytes_len(self.flags.0 as int, 1);
            assert(out@ =~= self.spec_encode());
        }
        out
    }

    pub fn decode(buf: &Vec<u8>, off: usize) -> (r: CodexFsSuperBlock)
        requires
            off + CODEXFS_SB_BYTES <= buf@.len(),
        ensures
            r == CodexFsSuperBlock::spec_decode(
                buf@.subrange(off as int, off as int + CODEXFS_SB_BYTES as int),
            ),
    {
        let ghost s = buf@.subrange(off as int, off as int + CODEXFS_SB_BYTES as int);
        let blen: usize = buf.len();
        proof {
            assert(off + CODEXFS_SB_BYTES <= blen);
            assert forall|a: int, b: int| 0 <= a <= b <= CODEXFS_SB_BYTES as int implies s
                .subrange(a, b) =~= buf@.subrange(off as int + a, off as int + b) by {}
        }
        let magic = get_le(buf, off, 4) as u32;
        let checksum = get_le(buf, off + 4, 4) as u32;
        let blksz_bits = get_le(buf, off + 8, 1) as u8;
        let root_nid = get_le(buf, off + 9, 8);
        let inos = get_le(buf, off + 17, 4) as u32;
        let islot_bits = get_le(buf, off + 21, 1) as u8;
        let blocks = get_le(buf, off + 22, 4) as u32;
        let end_data_blk_id = get_le(buf, off + 26, 4) as u32;
        let end_data_blk_sz = get_le(buf, off + 30, 4) as u32;
        let flags = CodexFsFlags(get_le(buf, off + 34, 1) as u8);
        CodexFsSuperBlock {
            magic,
            checksum,
            blksz_bits,
            root_nid,
            inos,
            islot_bits,
            blocks,
            end_data_blk_id,
            end_data_blk_sz,
            flags,
        }
    }
}

/// The 32-byte on-disk inode record.  The two-byte `u` field is the extent
/// count of a regular file in a compressed image, and the intra-block byte
/// offset of a regular file in an uncompressed image; it is zero elsewhere.
#[derive(Clone, Copy, Debug, PartialEq, Eq, Structural)]
pub struct CodexFsInode {
    pub mode: u16,
    pub nlink: u16,
    pub size: u32,
    pub ino: u32,
    pub uid: u16,
    pub gid: u16,
    pub blk_id: u32,
    pub u: u16,
}

impl CodexFsInode {
    pub open spec fn spec_encode(self) -> Seq<u8> {
        le_bytes(self.mode as int, 2) + le_bytes(self.nlink as int, 2) + le_bytes(
            self.size as int,
            4,
        ) + le_bytes(self.ino as int, 4) + le_bytes(self.uid as int, 2) + le_bytes(
            self.gid as int,
            2,
        ) + le_bytes(self.blk_id as int, 4) + le_bytes(self.u as int, 2) + zero_bytes(10)
    }

    pub open spec fn spec_decode(s: Seq<u8>) -> CodexFsInode
        recommends
            s.len() == CODEXFS_INODE_BYTES,
    {
        CodexFsInode {
            mode: le_val(s.subrange(0, 2)) as u16,
            nlink: le_val(s.subrange(2, 4)) as u16,
            size: le_val(s.subrange(4, 8)) as u32,
            ino: le_val(s.subrange(8, 12)) as u32,
            uid: le_val(s.subrange(12, 14)) as u16,
            gid: le_val(s.subrange(14, 16)) as u16,
            blk_id: le_val(s.subrange(16, 20)) as u32,
            u: le_val(s.subrange(20, 22)) as u16,
        }
    }

    pub proof fn lemma_encode_len(self)
        ensures
            self.spec_encode().len() == CODEXFS_INODE_BYTES,
    {
        lemma_le_bytes_len(self.mode as int, 2);
        lemma_le_bytes_len(self.nlink as int, 2);
        lemma_le_bytes_len(self.size as int, 4);
        lemma_le_bytes_len(self.ino as int, 4);
        lemma_le_bytes_len(self.uid as int, 2);
        lemma_le_bytes_len(self.gid as int, 2);
        lemma_le_bytes_len(self.blk_id as int, 4);
        lemma_le_bytes_len(self.u as int, 2);
    }

    /// Decoding an encoded inode record recovers every field.
    pub proof fn lemma_round_trip(self)
        ensures
            CodexFsInode::spec_decode(self.spec_encode()) == self,
    {
        self.lemma_encode_len();
        lemma_le_bytes_len(self.mode as int, 2);
        lemma_le_bytes_len(self.nlink as int, 2);
        lemma_le_bytes_len(self.size as int, 4);
        lemma_le_bytes_len(self.ino as int, 4);
        lemma_le_bytes_len(self.uid as int, 2);
        lemma_le_bytes_len(self.gid as int, 2);
        lemma_le_bytes_len(self.blk_id as int, 4);
        lemma_le_bytes_len(self.u as int, 2);
        lemma_pow256_vals();
        let s = self.spec_encode();
        assert(s.subrange(0, 2) =~= le_bytes(self.mode as int, 2));
        lemma_le_round_trip(self.mode as int, 2);
        assert(s.subrange(2, 4) =~= le_bytes(self.nlink as int, 2));
        lemma_le_round_trip(self.nlink as int, 2);
        assert(s.subrange(4, 8) =~= le_bytes(self.size as int, 4));
        lemma_le_round_trip(self.size as int, 4);
        assert(s.subrange(8, 12) =~= le_bytes(self.ino as int, 4));
        lemma_le_round_trip(self.ino as int, 4);
        assert(s.subrange(12, 14) =~= le_bytes(self.uid as int, 2));
        lemma_le_round_trip(self.uid as int, 2);
        assert(s.subrange(14, 16) =~= le_bytes(self.gid as int, 2));
        lemma_le_round_trip(self.gid as int, 2);
        assert(s.subrange(16, 20) =~= le_bytes(self.blk_id as int, 4));
        lemma_le_round_trip(self.blk_id as int, 4);
        assert(s.subrange(20, 22) =~= le_bytes(self.u as int, 2));
        lemma_le_round_trip(self.u as int, 2);
    }

    pub fn encode(&self) -> (r: Vec<u8>)
        ensures
            r@ == self.spec_encode(),
            r@.len() == CODEXFS_INODE_BYTES,
    {
        let mut out: Vec<u8> = Vec::new();
        put_le(&mut out, self.mode as u64, 2);
        put_le(&mut out, self.nlink as u64, 2);
        put_le(&mut out, self.size as u64, 4);
        put_le(&mut out, self.ino as u64, 4);
        put_le(&mut out, self.uid as u64, 2);
        put_le(&mut out, self.gid as u64, 2);
        put_le(&mut out, self.blk_id as u64, 4);
        put_le(&mut out, self.u as u64, 2);
        put_zeros(&mut out, 10);
        proof {
            self.lemma_encode_len();
        lemma_le_bytes_len(self.mode as int, 2);
        lemma_le_bytes_len(self.nlink as int, 2);
        lemma_le_bytes_len(self.size as int, 4);
        lemma_le_bytes_len(self.ino as int, 4);
        lemma_le_bytes_len(self.uid as int, 2);
        lemma_le_bytes_len(self.gid as int, 2);
        lemma_le_bytes_len(self.blk_id as int, 4);
        lemma_le_bytes_len(self.u as int, 2);
            assert(out@ =~= self.spec_encode());
        }
        out
    }

    pub fn decode(buf: &Vec<u8>, off: usize) -> (r: CodexFsInode)
        requires
            off + CODEXFS_INODE_BYTES <= buf@.len(),
        ensures
            r == CodexFsInode::spec_decode(
                buf@.subrange(off as int, off as int + CODEXFS_INODE_BYTES as int),
            ),
    {
        let ghost s = buf@.subrange(off as int, off as int + CODEXFS_INODE_BYTES as int);
        let blen: usize = buf.len();
        proof {
            assert(off + CODEXFS_INODE_BYTES <= blen);
            assert forall|a: int, b: int| 0 <= a <= b <= CODEXFS_INODE_BYTES as int implies s
                .subrange(a, b) =~= buf@.subrange(off as int + a, off as int + b) by {}
        }
        let mode = get_le(buf, off, 2) as u16;
        let nlink = get_le(buf, off + 2, 2) as u16;
        let size = get_le(buf, off + 4, 4) as u32;
        let ino = get_le(buf, off + 8, 4) as u32;
        let uid = get_le(buf, off + 12, 2) as u16;
        let gid = get_le(buf, off + 14, 2) as u16;
        let blk_id = get_le(buf, off + 16, 4) as u32;
        let u = get_le(buf, off + 20, 2) as u16;
        CodexFsInode { mode, nlink, size, ino, uid, gid, blk_id, u }
    }
}

/// The 12-byte on-disk directory entry.
#[derive(Clone, Copy, Debug, PartialEq, Eq, Structural)]
pub struct CodexFsDirent {
    pub nid: u64,
    pub nameoff: u16,
    pub file_type: CodexFsFileType,
    pub reserved: u8,
}

impl CodexFsDirent {
    pub open spec fn spec_encode(self) -> Seq<u8> {
        le_bytes(self.nid as int, 8) + le_bytes(self.nameoff as int, 2) + seq![
            self.file_type.spec_to_u8(),
            self.reserved,
        ]
    }

    pub open spec fn spec_decode(s: Seq<u8>) -> Option<CodexFsDirent>
        recommends
            s.len() == CODEXFS_DIRENT_BYTES,
    {
        match CodexFsFileType::spec_from_u8(s[10]) {
            Some(ft) => Some(
                CodexFsDirent {
                    nid: le_val(s.subrange(0, 8)) as u64,
                    nameoff: le_val(s.subrange(8, 10)) as u16,
                    file_type: ft,
                    reserved: s[11],
                },
            ),
            None => None,
        }
    }

    pub proof fn lemma_encode_len(self)
        ensures
            self.spec_encode().len() == CODEXFS_DIRENT_BYTES,
    {
        lemma_le_bytes_len(self.nid as int, 8);
        lemma_le_bytes_len(self.nameoff as int, 2);
    }

    /// Decoding an encoded dirent recovers it, for every file type a writer
    /// emits (everything but `Unknown`).
    pub proof fn lemma_round_trip(self)
        requires
            !(self.file_type is Unknown),
        ensures
            CodexFsDirent::spec_decode(self.spec_encode()) == Some(self),
    {
        self.lemma_encode_len();
        lemma_le_bytes_len(self.nid as int, 8);
        lemma_le_bytes_len(self.nameoff as int, 2);
        lemma_pow256_vals();
        let s = self.spec_encode();
        assert(s.subrange(0, 8) =~= le_bytes(self.nid as int, 8));
        lemma_le_round_trip(self.nid as int, 8);
        assert(s.subrange(8, 10) =~= le_bytes(self.nameoff as int, 2));
        lemma_le_round_trip(self.nameoff as int, 2);
        assert(s[10] == self.file_type.spec_to_u8());
        assert(s[11] == self.reserved);
    }

    pub fn encode(&self) -> (r: Vec<u8>)
        ensures
            r@ == self.spec_encode(),
            r@.len() == CODEXFS_DIRENT_BYTES,
    {
        let mut out: Vec<u8> = Vec::new();
        put_le(&mut out, self.nid, 8);
        put_le(&mut out, self.nameoff as u64, 2);
        out.push(self.file_type.to_u8());
        out.push(self.reserved);
        proof {
            self.lemma_encode_len();
        lemma_le_bytes_len(self.nid as int, 8);
        lemma_le_bytes_len(self.nameoff as int, 2);
            assert(out@ =~= self.spec_encode());
        }
        out
    }

    pub fn decode(buf: &Vec<u8>, off: usize) -> (r: Option<CodexFsDirent>)
        requires
            off + CODEXFS_DIRENT_BYTES <= buf@.len(),
        ensures
            r == CodexFsDirent::spec_decode(
                buf@.subrange(off as int, off as int + CODEXFS_DIRENT_BYTES as int),
            ),
    {
        let ghost s = buf@.subrange(off as int, off as int + CODEXFS_DIRENT_BYTES as int);
        let blen: usize = buf.len();
        proof {
            assert(off + CODEXFS_DIRENT_BYTES <= blen);
            assert forall|a: int, b: int| 0 <= a <= b <= CODEXFS_DIRENT_BYTES as int implies s
                .subrange(a, b) =~= buf@.subrange(off as int + a, off as int + b) by {}
        }
        let nid = get_le(buf, off, 8);
        let nameoff = get_le(buf, off + 8, 2) as u16;
        let ft_byte = buf[off + 10];
        let reserved = buf[off + 11];
        proof {
            assert(ft_byte == s[10]);
            assert(reserved == s[11]);
        }
        match CodexFsFileType::from_u8(ft_byte) {
            Some(file_type) => Some(CodexFsDirent { nid, nameoff, file_type, reserved }),
            None => None,
        }
    }
}

/// The 8-byte on-disk extent record.
#[derive(Clone, Copy, Debug, PartialEq, Eq, Structural)]
pub struct CodexFsExtent {
    /// Offset in the file at which this extent's bytes begin.
    pub off: u32,
    /// Offset in the decompressed fragment at which the file's bytes begin.
    pub frag_off: u32,
}

impl CodexFsExtent {
    pub open spec fn spec_encode(self) -> Seq<u8> {
        le_bytes(self.off as int, 4) + le_bytes(self.frag_off as int, 4)
    }

    pub open spec fn spec_decode(s: Seq<u8>) -> CodexFsExtent
        recommends
            s.len() == CODEXFS_EXTENT_BYTES,
    {
        CodexFsExtent {
            off: le_val(s.subrange(0, 4)) as u32,
            frag_off: le_val(s.subrange(4, 8)) as u32,
        }
    }

    pub proof fn lemma_encode_len(self)
        ensures
            self.spec_encode().len() == CODEXFS_EXTENT_BYTES,
    {
        lemma_le_bytes_len(self.off as int, 4);
        lemma_le_bytes_len(self.frag_off as int, 4);
    }

    /// Decoding an encoded extent recovers both fields.
    pub proof fn lemma_round_trip(self)
        ensures
            CodexFsExtent::spec_decode(self.spec_encode()) == self,
    {
        self.lemma_encode_len();
        lemma_le_bytes_len(self.off as int, 4);
        lemma_le_bytes_len(self.frag_off as int, 4);
        lemma_pow256_vals();
        let s = self.spec_encode();
        assert(s.subrange(0, 4) =~= le_bytes(self.off as int, 4));
        lemma_le_round_trip(self.off as int, 4);
        assert(s.subrange(4, 8) =~= le_bytes(self.frag_off as int, 4));
        lemma_le_round_trip(self.frag_off as int, 4);
    }

    pub fn encode(&self) -> (r: Vec<u8>)
        ensures
            r@ == self.spec_encode(),
            r@.len() == CODEXFS_EXTENT_BYTES,
    {
        let mut out: Vec<u8> = Vec::new();
        put_le(&mut out, self.off as u64, 4);
        put_le(&mut out, self.frag_off as u64, 4);
        proof {
            self.lemma_encode_len();
        lemma_le_bytes_len(self.off as int, 4);
        lemma_le_bytes_len(self.frag_off as int, 4);
            assert(out@ =~= self.spec_encode());
        }
        out
    }

    pub fn decode(buf: &Vec<u8>, off: usize) -> (r: CodexFsExtent)
        requires
            off + CODEXFS_EXTENT_BYTES <= buf@.len(),
        ensures
            r == CodexFsExtent::spec_decode(
                buf@.subrange(off as int, off as int + CODEXFS_EXTENT_BYTES as int),
            ),
    {
        let ghost s = buf@.subrange(off as int, off as int + CODEXFS_EXTENT_BYTES as int);
        let blen: usize = buf.len();
        proof {
            assert(off + CODEXFS_EXTENT_BYTES <= blen);
            assert forall|a: int, b: int| 0 <= a <= b <= CODEXFS_EXTENT_BYTES as int implies s
                .subrange(a, b) =~= buf@.subrange(off as int + a, off as int + b) by {}
        }
        let eoff = get_le(buf, off, 4) as u32;
        let frag_off = get_le(buf, off + 4, 4) as u32;
        CodexFsExtent { off: eoff, frag_off }
    }
}

} // verus!
