use codexfs::error::CodexFsError;
use codexfs::image::Image;
use codexfs::inode::{IType, Inode, InodeTable, SourceNode, SourcePayload};
use codexfs::mkfs::mkfs_build_image;
use codexfs::mount::{
    fuse_mount, fuse_read_inode_file, fuse_read_inode_file_z, fuse_readlink, lookup_child,
};
use codexfs::sb::SuperBlock;

fn file_node(path: &str, name: &str, ino: u32, content: &[u8]) -> SourceNode {
    SourceNode {
        path: path.as_bytes().to_vec(),
        name: name.as_bytes().to_vec(),
        ino,
        uid: 0,
        gid: 0,
        mode: 0o100644,
        payload: SourcePayload::File(content.to_vec()),
    }
}

fn symlink_node(path: &str, name: &str, ino: u32, target: &[u8]) -> SourceNode {
    SourceNode {
        path: path.as_bytes().to_vec(),
        name: name.as_bytes().to_vec(),
        ino,
        uid: 0,
        gid: 0,
        mode: 0o120777,
        payload: SourcePayload::SymLink(target.to_vec()),
    }
}

fn dir_node(path: &str, name: &str, ino: u32, children: Vec<SourceNode>) -> SourceNode {
    SourceNode {
        path: path.as_bytes().to_vec(),
        name: name.as_bytes().to_vec(),
        ino,
        uid: 0,
        gid: 0,
        mode: 0o040755,
        payload: SourcePayload::Dir(children),
    }
}

fn root_dir(_table: &InodeTable, sb: &SuperBlock) -> usize {
    sb.root()
}

fn child_of(table: &InodeTable, dir_idx: usize, name: &str) -> usize {
    match &table.inodes[dir_idx].itype {
        IType::Dir(d) => lookup_child(&table.inodes, d, &name.as_bytes().to_vec()).unwrap(),
        _ => panic!("not a directory"),
    }
}

fn dentry_count(table: &InodeTable, dir_idx: usize) -> usize {
    match &table.inodes[dir_idx].itype {
        IType::Dir(d) => d.inner.dentries.len(),
        _ => panic!("not a directory"),
    }
}

fn read_file(sb: &SuperBlock, img: &Image, inode: &Inode, off: u32, len: u32) -> Vec<u8> {
    if sb.compress {
        fuse_read_inode_file_z(sb, img, inode, off, len).unwrap()
    } else {
        fuse_read_inode_file(sb, img, inode, off, len).unwrap()
    }
}

#[test]
fn empty_directory_both_modes() {
    for compress in [false, true] {
        let root = dir_node(".", ".", 1, vec![dir_node("./dir", "dir", 2, vec![])]);
        let (img, _sb, _t) = mkfs_build_image(&root, 4096, compress, 6).unwrap();
        let (msb, mtable) = fuse_mount(&img).unwrap();
        let ridx = root_dir(&mtable, &msb);
        // the root lists only `dir`; `.` and `..` stay synthetic
        assert_eq!(dentry_count(&mtable, ridx), 1);
        let didx = child_of(&mtable, ridx, "dir");
        assert_eq!(dentry_count(&mtable, didx), 0);
    }
}

#[test]
fn small_text_compressed() {
    let root = dir_node(
        ".",
        ".",
        1,
        vec![file_node("./hello.txt", "hello.txt", 2, b"Hello world!")],
    );
    let (img, _sb, _t) = mkfs_build_image(&root, 4096, true, 6).unwrap();
    let (msb, mtable) = fuse_mount(&img).unwrap();
    let ridx = root_dir(&mtable, &msb);
    let fidx = child_of(&mtable, ridx, "hello.txt");
    match &mtable.inodes[fidx].itype {
        IType::File(f) => assert_eq!(f.size, 12),
        _ => panic!("expected a file"),
    }
    let data = fuse_read_inode_file_z(&msb, &img, &mtable.inodes[fidx], 0, 12).unwrap();
    assert_eq!(&data, b"Hello world!");
}

#[test]
fn small_text_uncompressed() {
    let root = dir_node(
        ".",
        ".",
        1,
        vec![file_node("./hello.txt", "hello.txt", 2, b"Hello world!")],
    );
    let (img, _sb, _t) = mkfs_build_image(&root, 4096, false, 6).unwrap();
    let (msb, mtable) = fuse_mount(&img).unwrap();
    let ridx = root_dir(&mtable, &msb);
    let fidx = child_of(&mtable, ridx, "hello.txt");
    let data = fuse_read_inode_file(&msb, &img, &mtable.inodes[fidx], 0, 12).unwrap();
    assert_eq!(&data, b"Hello world!");
}

#[test]
fn hard_link_shares_inode() {
    let a = dir_node(
        "./a",
        "a",
        10,
        vec![file_node("./a/hello.txt", "hello.txt", 100, b"Hello world!")],
    );
    let b = dir_node(
        "./b",
        "b",
        11,
        vec![file_node(
            "./b/hello.txt.hardlink",
            "hello.txt.hardlink",
            100,
            b"Hello world!",
        )],
    );
    let root = dir_node(".", ".", 1, vec![a, b]);
    let (img, _sb, _t) = mkfs_build_image(&root, 4096, true, 6).unwrap();
    let (msb, mtable) = fuse_mount(&img).unwrap();
    let ridx = root_dir(&mtable, &msb);
    let aidx = child_of(&mtable, ridx, "a");
    let bidx = child_of(&mtable, ridx, "b");
    let f1 = child_of(&mtable, aidx, "hello.txt");
    let f2 = child_of(&mtable, bidx, "hello.txt.hardlink");
    assert_eq!(mtable.inodes[f1].meta.ino, mtable.inodes[f2].meta.ino);
    let d1 = read_file(&msb, &img, &mtable.inodes[f1], 0, 12);
    let d2 = read_file(&msb, &img, &mtable.inodes[f2], 0, 12);
    assert_eq!(d1, d2);
    assert_eq!(mtable.inodes[ridx].meta.inner.nlink, 4);
    assert_eq!(mtable.inodes[aidx].meta.inner.nlink, 2);
    assert_eq!(mtable.inodes[bidx].meta.inner.nlink, 2);
    assert_eq!(mtable.inodes[f1].meta.inner.nlink, 2);
}

#[test]
fn symlink_target_round_trip() {
    let root = dir_node(
        ".",
        ".",
        1,
        vec![
            file_node("./hello.txt", "hello.txt", 2, b"Hello world!"),
            symlink_node("./link", "link", 3, b"hello.txt"),
        ],
    );
    let (img, _sb, _t) = mkfs_build_image(&root, 4096, true, 6).unwrap();
    let (msb, mtable) = fuse_mount(&img).unwrap();
    let ridx = root_dir(&mtable, &msb);
    let lidx = child_of(&mtable, ridx, "link");
    let target = fuse_readlink(&msb, &img, &mtable.inodes[lidx]).unwrap();
    assert_eq!(&target, b"hello.txt");
}

fn pseudo_random_bytes(n: usize) -> Vec<u8> {
    let mut out = Vec::with_capacity(n);
    let mut x: u32 = 0x12345678;
    for _ in 0..n {
        x = x.wrapping_mul(1103515245).wrapping_add(12345);
        out.push((x >> 16) as u8);
    }
    out
}

#[test]
fn cross_block_file_partial_reads() {
    let b: usize = 4096;
    let content = pseudo_random_bytes(3 * b + 17);
    let root = dir_node(
        ".",
        ".",
        1,
        vec![file_node("./big.bin", "big.bin", 2, &content)],
    );
    let (img, _sb, _t) = mkfs_build_image(&root, 4096, true, 6).unwrap();
    let (msb, mtable) = fuse_mount(&img).unwrap();
    let ridx = root_dir(&mtable, &msb);
    let fidx = child_of(&mtable, ridx, "big.bin");
    match &mtable.inodes[fidx].itype {
        IType::File(f) => assert!(f.inner.extents.len() >= 2),
        _ => panic!("expected a file"),
    }
    for (off, len) in [(0u32, 1u32), (4095, 3), (4096, 4096), (12288, 17)] {
        let got = fuse_read_inode_file_z(&msb, &img, &mtable.inodes[fidx], off, len).unwrap();
        let want = &content[off as usize..(off + len) as usize];
        assert_eq!(&got[..len as usize], want);
    }
}

#[test]
fn shared_fragment_between_similar_files() {
    let b: usize = 4096;
    let mut c1 = pseudo_random_bytes(b / 3);
    let mut c2 = c1.clone();
    c1[0] = 1;
    c2[0] = 2;
    let root = dir_node(
        ".",
        ".",
        1,
        vec![
            file_node("./f1.bin", "f1.bin", 2, &c1),
            file_node("./f2.bin", "f2.bin", 3, &c2),
        ],
    );
    let (img, _sb, _t) = mkfs_build_image(&root, 4096, true, 6).unwrap();
    let (msb, mtable) = fuse_mount(&img).unwrap();
    let ridx = root_dir(&mtable, &msb);
    let i1 = child_of(&mtable, ridx, "f1.bin");
    let i2 = child_of(&mtable, ridx, "f2.bin");
    let (b1, e1, b2, e2) = match (&mtable.inodes[i1].itype, &mtable.inodes[i2].itype) {
        (IType::File(f1), IType::File(f2)) => (
            f1.inner.blk_id.unwrap(),
            f1.inner.blk_id.unwrap() + f1.inner.extents.len() as u32,
            f2.inner.blk_id.unwrap(),
            f2.inner.blk_id.unwrap() + f2.inner.extents.len() as u32,
        ),
        _ => panic!("expected files"),
    };
    // their block ranges overlap: the two similar files share a fragment
    assert!(b1 < e2 && b2 < e1);
    let d1 = fuse_read_inode_file_z(&msb, &img, &mtable.inodes[i1], 0, (b / 3) as u32).unwrap();
    let d2 = fuse_read_inode_file_z(&msb, &img, &mtable.inodes[i2], 0, (b / 3) as u32).unwrap();
    assert_eq!(&d1, &c1);
    assert_eq!(&d2, &c2);
}

#[test]
fn bad_block_size_is_rejected() {
    let root = dir_node(".", ".", 1, vec![]);
    let r = mkfs_build_image(&root, 1000, true, 6);
    assert!(matches!(r, Err(CodexFsError::FormatError)));
}

#[test]
fn truncated_image_fails_to_mount() {
    let img = Image { data: vec![0u8; 16] };
    let r = fuse_mount(&img);
    assert!(matches!(r, Err(CodexFsError::IoError)));
}

#[test]
fn wrong_magic_fails_to_mount() {
    let img = Image { data: vec![0u8; 4096] };
    let r = fuse_mount(&img);
    assert!(matches!(r, Err(CodexFsError::FormatError)));
}

#[test]
fn corrupt_data_block_fails_to_read() {
    let root = dir_node(
        ".",
        ".",
        1,
        vec![file_node("./hello.txt", "hello.txt", 2, b"Hello world!")],
    );
    let (mut img, _sb, _t) = mkfs_build_image(&root, 4096, true, 6).unwrap();
    let (msb, mtable) = fuse_mount(&img).unwrap();
    let ridx = msb.root();
    let fidx = child_of(&mtable, ridx, "hello.txt");
    // scribble over the compressed payload of the file's data block
    let blk = match &mtable.inodes[fidx].itype {
        IType::File(f) => f.inner.blk_id.unwrap() as usize,
        _ => panic!("expected a file"),
    };
    for i in 0..4096 {
        img.data[blk * 4096 + i] = if i % 2 == 0 { 0x5a } else { 0xa5 };
    }
    let r = fuse_read_inode_file_z(&msb, &img, &mtable.inodes[fidx], 0, 12);
    assert!(r.is_err());
}

#[test]
fn image_length_is_block_aligned() {
    let root = dir_node(
        ".",
        ".",
        1,
        vec![file_node("./hello.txt", "hello.txt", 2, b"Hello world!")],
    );
    for compress in [false, true] {
        let (img, _sb, _t) = mkfs_build_image(&root, 4096, compress, 6).unwrap();
        assert_eq!(img.data.len() % 4096, 0);
        assert!(img.data.len() > 0);
    }
}

#[test]
fn directory_child_order_is_kept() {
    let root = dir_node(
        ".",
        ".",
        1,
        vec![
            file_node("./zeta", "zeta", 2, b"z"),
            file_node("./alpha", "alpha", 3, b"a"),
            file_node("./mid", "mid", 4, b"m"),
        ],
    );
    for compress in [false, true] {
        let (img, _sb, _t) = mkfs_build_image(&root, 4096, compress, 6).unwrap();
        let (msb, mtable) = fuse_mount(&img).unwrap();
        let ridx = root_dir(&mtable, &msb);
        let names: Vec<Vec<u8>> = match &mtable.inodes[ridx].itype {
            IType::Dir(d) => d.inner.dentries.iter().map(|de| de.file_name.clone()).collect(),
            _ => panic!("not a directory"),
        };
        assert_eq!(
            names,
            vec![b"zeta".to_vec(), b"alpha".to_vec(), b"mid".to_vec()]
        );
    }
}

#[test]
fn mount_preserves_mode_uid_gid() {
    let mut f = file_node("./f", "f", 2, b"abc");
    f.uid = 1234;
    f.gid = 4321;
    f.mode = 0o100640;
    let root = dir_node(".", ".", 1, vec![f]);
    let (img, _sb, _t) = mkfs_build_image(&root, 4096, true, 6).unwrap();
    let (msb, mtable) = fuse_mount(&img).unwrap();
    let ridx = root_dir(&mtable, &msb);
    let fidx = child_of(&mtable, ridx, "f");
    assert_eq!(mtable.inodes[fidx].meta.uid, 1234);
    assert_eq!(mtable.inodes[fidx].meta.gid, 4321);
    assert_eq!(mtable.inodes[fidx].meta.mode, 0o100640);
}
