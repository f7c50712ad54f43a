use codexfs::compress::CompressManager;
use codexfs::error::CodexFsError;
use codexfs::inode::{mkfs_load_inode, InodeTable, SourceNode, SourcePayload};
use codexfs::sb::SuperBlock;

fn file_node(path: &str, name: &str, ino: u32, content: &[u8]) -> SourceNode {
    SourceNode {
        path: path.as_bytes().to_vec(),
        name: name.as_bytes().to_vec(),
        ino,
        uid: 0,
        gid: 0,
        mode: 0o100644,
        payload: SourcePayload::File(content.to_vec()),
    }
}

fn dir_node(path: &str, name: &str, ino: u32, children: Vec<SourceNode>) -> SourceNode {
    SourceNode {
        path: path.as_bytes().to_vec(),
        name: name.as_bytes().to_vec(),
        ino,
        uid: 0,
        gid: 0,
        mode: 0o040755,
        payload: SourcePayload::Dir(children),
    }
}

#[test]
fn check_mkfs_load_inode() {
    // .
    // |-- hello.txt
    // `-- subdir
    //     `-- hello.txt.hardlink
    let hello = file_node("cargo-test-fs.tmp/hello.txt", "hello.txt", 100, b"Hello world!");
    let hardlink = file_node(
        "cargo-test-fs.tmp/subdir/hello.txt.hardlink",
        "hello.txt.hardlink",
        100,
        b"Hello world!",
    );
    let subdir = dir_node("cargo-test-fs.tmp/subdir", "subdir", 101, vec![hardlink]);
    let root = dir_node("cargo-test-fs.tmp", "cargo-test-fs.tmp", 102, vec![hello, subdir]);

    let mut sb = SuperBlock::new(12);
    let mut table = InodeTable::new();
    let mut files: Vec<usize> = Vec::new();
    let root_idx = mkfs_load_inode(&root, None, &mut sb, &mut table, &mut files).unwrap();

    let subdir_idx = table
        .get_inode_by_path(&b"cargo-test-fs.tmp/subdir".to_vec())
        .unwrap();
    let hello_idx = table
        .get_inode_by_path(&b"cargo-test-fs.tmp/hello.txt".to_vec())
        .unwrap();
    // the hard link was dedup'd onto the first path's inode; its source
    // ino resolves to the same slot
    let hardlink_idx = table.get_inode(100).unwrap();

    let root_parent = table.inodes[root_idx].parent();
    assert_eq!(root_parent, root_idx);
    assert_eq!(hello_idx, hardlink_idx);

    assert_eq!(table.inodes[root_idx].meta.inner.nlink, 3);
    assert_eq!(table.inodes[subdir_idx].meta.inner.nlink, 2);
    assert_eq!(table.inodes[hello_idx].meta.inner.nlink, 2);
}

#[test]
fn unsupported_node_is_rejected() {
    let dev = SourceNode {
        path: b"dev0".to_vec(),
        name: b"dev0".to_vec(),
        ino: 5,
        uid: 0,
        gid: 0,
        mode: 0o020644,
        payload: SourcePayload::Other,
    };
    let mut sb = SuperBlock::new(12);
    let mut table = InodeTable::new();
    let mut files: Vec<usize> = Vec::new();
    let r = mkfs_load_inode(&dev, None, &mut sb, &mut table, &mut files);
    assert_eq!(r, Err(CodexFsError::UnsupportedFileType));
}

#[test]
fn tlsh_distance_separates_contents() {
    // identical contents score zero; thoroughly different contents do not
    let mut a: Vec<u8> = Vec::new();
    let mut b: Vec<u8> = Vec::new();
    let mut x: u32 = 1;
    for i in 0..4096u32 {
        x = x.wrapping_mul(1103515245).wrapping_add(12345);
        a.push((x >> 16) as u8);
        b.push((i % 251) as u8);
    }
    let f0 = file_node("t/f0", "f0", 1, &a);
    let f1 = file_node("t/f1", "f1", 2, &a);
    let f2 = file_node("t/f2", "f2", 3, &b);
    let root = dir_node("t", "t", 10, vec![f0, f1, f2]);
    let mut sb = SuperBlock::new(12);
    let mut table = InodeTable::new();
    let mut files: Vec<usize> = Vec::new();
    mkfs_load_inode(&root, None, &mut sb, &mut table, &mut files).unwrap();
    let mut cmpr = CompressManager::new(6);
    cmpr.files = files;
    cmpr.construct_diff_map(&table.inodes);
    assert_eq!(cmpr.diff_mat.len(), 3);
    assert_eq!(cmpr.diff_mat[0][1], 0);
    assert!(cmpr.diff_mat[0][2] > 0);
    assert_eq!(cmpr.diff_mat[0][2], cmpr.diff_mat[2][0]);
    assert_eq!(cmpr.diff_mat[1][1], 0);
}

#[test]
fn allocator_hands_out_aligned_disjoint_regions() {
    let mut m = codexfs::buffer::BufferManager::new(4096);
    let a = m.balloc(128, codexfs::buffer::BufferType::Meta);
    let b = m.balloc(40, codexfs::buffer::BufferType::Inode);
    let c = m.balloc(4096, codexfs::buffer::BufferType::ZData);
    let d = m.balloc(10, codexfs::buffer::BufferType::Data);
    assert_eq!(b % 32, 0);
    assert_eq!(c % 4096, 0);
    let regions = [(a, 128u64), (b, 64u64), (c, 4096u64), (d, 10u64)];
    for i in 0..regions.len() {
        for j in 0..regions.len() {
            if i != j {
                let (s1, l1) = regions[i];
                let (s2, l2) = regions[j];
                assert!(s1 + l1 <= s2 || s2 + l2 <= s1);
            }
        }
    }
}
