use sandbox_vfs::filesystem::{VfsDirEntry, VfsEntryKind};
use sandbox_vfs::linux_dirents::{
    align_to, dirent_type, dot_entries, dot_entry_list, write_dirents64, entry_path,
    inode_for_path, WriteDirentsResult,
};

fn entry(name: &str, kind: VfsEntryKind, ino: Option<u64>) -> VfsDirEntry {
    VfsDirEntry { name: name.as_bytes().to_vec(), kind, ino }
}

#[test]
fn align_to_rounds_up_to_powers_of_two() {
    assert_eq!(align_to(21, 8), 24);
    assert_eq!(align_to(24, 8), 24);
    assert_eq!(align_to(0, 8), 0);
    assert_eq!(align_to(5, 1), 5);
    assert_eq!(align_to(17, 16), 32);
    assert_eq!(align_to(4097, 4096), 8192);
}

#[test]
fn dot_entries_are_directories_without_inodes() {
    let [d, dd] = dot_entries();
    assert_eq!(d, entry(".", VfsEntryKind::Dir, None));
    assert_eq!(dd, entry("..", VfsEntryKind::Dir, None));
    assert_eq!(dot_entry_list(), vec![d, dd]);
    assert_eq!(dirent_type(VfsEntryKind::Dir), libc::DT_DIR);
    assert_eq!(dirent_type(VfsEntryKind::File), libc::DT_REG);
}

#[test]
fn entry_paths_name_self_parent_and_child() {
    assert_eq!(entry_path(b"/a/b", b"."), b"/a/b".to_vec());
    assert_eq!(entry_path(b"/a/b", b".."), b"/a".to_vec());
    assert_eq!(entry_path(b"/", b".."), b"/".to_vec());
    assert_eq!(entry_path(b"/a", b"c"), b"/a/c".to_vec());
}

#[test]
fn synthetic_inodes_depend_on_the_path_only() {
    assert_eq!(inode_for_path(b"/a/b"), inode_for_path(b"/a/b"));
    assert_ne!(inode_for_path(b"/a/b"), inode_for_path(b"/a/c"));
}

#[test]
fn records_have_the_linux_dirent64_layout() {
    let entries = vec![entry("file", VfsEntryKind::File, Some(0x0102)), entry("sub", VfsEntryKind::Dir, Some(7))];
    let (bytes, res) = write_dirents64(b"/d", &entries, 5, 4096);
    assert_eq!(res, WriteDirentsResult { bytes_written: 48, entries_consumed: 2 });
    assert_eq!(bytes.len(), 48);
    // first record: ino, next offset 6, reclen 24, DT_REG, "file\0", padding
    assert_eq!(&bytes[0..8], &[2, 1, 0, 0, 0, 0, 0, 0]);
    assert_eq!(&bytes[8..16], &[6, 0, 0, 0, 0, 0, 0, 0]);
    assert_eq!(&bytes[16..18], &[24, 0]);
    assert_eq!(bytes[18], libc::DT_REG);
    assert_eq!(&bytes[19..24], b"file\0");
    // second record starts at 24
    assert_eq!(&bytes[24..32], &[7, 0, 0, 0, 0, 0, 0, 0]);
    assert_eq!(&bytes[32..40], &[7, 0, 0, 0, 0, 0, 0, 0]);
    assert_eq!(bytes[42], libc::DT_DIR);
    assert_eq!(&bytes[43..47], b"sub\0");
    assert_eq!(bytes[47], 0);
}

#[test]
fn records_stop_at_the_buffer_size() {
    let entries = vec![entry("a", VfsEntryKind::File, Some(1)), entry("b", VfsEntryKind::File, Some(2))];
    let (bytes, res) = write_dirents64(b"/", &entries, 0, 30);
    assert_eq!(res, WriteDirentsResult { bytes_written: 24, entries_consumed: 1 });
    assert_eq!(bytes.len(), 24);
    let (bytes, res) = write_dirents64(b"/", &entries, 0, 10);
    assert_eq!(res, WriteDirentsResult { bytes_written: -1, entries_consumed: 0 });
    assert!(bytes.is_empty());
    let (_, res) = write_dirents64(b"/", &entries, 0, 0);
    assert_eq!(res, WriteDirentsResult { bytes_written: -1, entries_consumed: 0 });
    let (bytes, res) = write_dirents64(b"/", &[], 0, 64);
    assert_eq!(res, WriteDirentsResult { bytes_written: 0, entries_consumed: 0 });
    assert!(bytes.is_empty());
}

#[test]
fn entries_without_inode_get_the_path_inode() {
    let entries = vec![entry("x", VfsEntryKind::File, None)];
    let (bytes, _) = write_dirents64(b"/d", &entries, 0, 64);
    let ino = inode_for_path(b"/d/x");
    assert_eq!(&bytes[0..8], &ino.to_le_bytes());
}

#[test]
fn synthetic_inodes_go_by_path_components() {
    assert_eq!(inode_for_path(b"/a//b/"), inode_for_path(b"/a/b"));
    assert_eq!(inode_for_path(b"/a/./b"), inode_for_path(b"/a/b"));
    assert_ne!(inode_for_path(b"a/b"), inode_for_path(b"/a/b"));
    assert_ne!(inode_for_path(b"/a/b/c"), inode_for_path(b"/a/b"));
}

#[test]
fn a_record_longer_than_the_buffer_is_not_written() {
    let long = VfsDirEntry { name: vec![b'x'; 2 * 1024 * 1024], kind: VfsEntryKind::File, ino: Some(7) };
    let entries = vec![entry("a", VfsEntryKind::File, Some(1)), long];
    let (bytes, res) = write_dirents64(b"/", &entries, 0, 4096);
    assert_eq!(res.entries_consumed, 1);
    assert_eq!(res.bytes_written, 24);
    assert_eq!(bytes.len(), 24);
    let (bytes, res) = write_dirents64(b"/", &entries[1..], 0, 4096);
    assert_eq!(res, WriteDirentsResult { bytes_written: -1, entries_consumed: 0 });
    assert!(bytes.is_empty());
}
