use codexfs::layout::{
    CodexFsDirent, CodexFsExtent, CodexFsFileType, CodexFsFlags, CodexFsInode, CodexFsSuperBlock,
    CODEXFS_DIRENT_BYTES, CODEXFS_EXTENT_BYTES, CODEXFS_INODE_BYTES, CODEXFS_MAGIC,
    CODEXFS_SB_BYTES,
};

#[test]
fn check_ondisk_layout_definitions() {
    let sb = CodexFsSuperBlock {
        magic: CODEXFS_MAGIC,
        checksum: 0,
        blksz_bits: 12,
        root_nid: 7,
        inos: 3,
        islot_bits: 5,
        blocks: 0,
        end_data_blk_id: 1,
        end_data_blk_sz: 100,
        flags: CodexFsFlags(1),
    };
    assert_eq!(sb.encode().len(), 128);
    assert_eq!(CODEXFS_SB_BYTES, 128);
    let ino = CodexFsInode {
        mode: 0o100644,
        nlink: 1,
        size: 12,
        ino: 2,
        uid: 0,
        gid: 0,
        blk_id: 1,
        u: 1,
    };
    assert_eq!(ino.encode().len(), 32);
    assert_eq!(CODEXFS_INODE_BYTES, 32);
    let de = CodexFsDirent {
        nid: 4,
        nameoff: 36,
        file_type: CodexFsFileType::File,
        reserved: 0,
    };
    assert_eq!(de.encode().len(), 12);
    assert_eq!(CODEXFS_DIRENT_BYTES, 12);
    let ex = CodexFsExtent { off: 0, frag_off: 9 };
    assert_eq!(ex.encode().len(), 8);
    assert_eq!(CODEXFS_EXTENT_BYTES, 8);
}

#[test]
fn superblock_record_round_trip() {
    let sb = CodexFsSuperBlock {
        magic: CODEXFS_MAGIC,
        checksum: 0,
        blksz_bits: 12,
        root_nid: 123456789,
        inos: 42,
        islot_bits: 5,
        blocks: 0,
        end_data_blk_id: 77,
        end_data_blk_sz: 4000,
        flags: CodexFsFlags(1),
    };
    let bytes = sb.encode();
    let back = CodexFsSuperBlock::decode(&bytes, 0);
    assert_eq!(back, sb);
}

#[test]
fn inode_record_round_trip() {
    let rec = CodexFsInode {
        mode: 0o040755,
        nlink: 3,
        size: 63,
        ino: 9,
        uid: 1000,
        gid: 1000,
        blk_id: 0,
        u: 0,
    };
    let bytes = rec.encode();
    let back = CodexFsInode::decode(&bytes, 0);
    assert_eq!(back, rec);
}

#[test]
fn dirent_record_round_trip() {
    let de = CodexFsDirent {
        nid: 31,
        nameoff: 48,
        file_type: CodexFsFileType::Symlink,
        reserved: 0,
    };
    let bytes = de.encode();
    assert_eq!(CodexFsDirent::decode(&bytes, 0), Some(de));
    // an unknown file-type byte is a parse error
    let mut bad = bytes.clone();
    bad[10] = 0;
    assert_eq!(CodexFsDirent::decode(&bad, 0), None);
}

#[test]
fn extent_record_round_trip() {
    let ex = CodexFsExtent { off: 4096, frag_off: 123 };
    let bytes = ex.encode();
    assert_eq!(CodexFsExtent::decode(&bytes, 0), ex);
}

#[test]
fn file_type_mode_mapping() {
    assert_eq!(CodexFsFileType::from_mode(0o100644), Some(CodexFsFileType::File));
    assert_eq!(CodexFsFileType::from_mode(0o040755), Some(CodexFsFileType::Dir));
    assert_eq!(CodexFsFileType::from_mode(0o120777), Some(CodexFsFileType::Symlink));
    assert_eq!(CodexFsFileType::from_mode(0), None);
    assert!(CodexFsFileType::File.is_file());
    assert!(CodexFsFileType::Dir.is_dir());
    assert!(CodexFsFileType::Symlink.is_symlink());
    assert!(CodexFsFileType::BlockDevice.is_block_device());
    assert!(CodexFsFileType::CharDevice.is_char_device());
    assert!(CodexFsFileType::Fifo.is_fifo());
    assert!(CodexFsFileType::Socket.is_socket());
}
