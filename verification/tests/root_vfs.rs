use libc::{AT_FDCWD, F_OK, O_CREAT, O_RDONLY};
use sandbox_vfs::filesystem::{LowLevelFS, Stat};
use sandbox_vfs::impls::memory::CountingBacking;
use sandbox_vfs::root_vfs::RootVFS;
use sandbox_vfs::sys::AT_REMOVEDIR;
use sandbox_vfs::MemoryFS;

fn memory(id: &str) -> MemoryFS<CountingBacking> {
    MemoryFS::new(id, CountingBacking::new())
}

#[test]
fn test_mount_redirect() {
    let root = RootVFS::new(memory("root")).with_mount(b"/mnt", memory("mnt"));

    let (fs1, p1) = root.path_to_fs(b"/usr/bin");
    assert_eq!(fs1.id(), "root");
    assert_eq!(p1, b"/usr/bin".to_vec());

    let (fs2, p2) = root.path_to_fs(b"/mnt/file.txt");
    assert_eq!(fs2.id(), "mnt");
    assert_eq!(p2, b"/file.txt".to_vec());
}

#[test]
fn test_relative_paths_resolve_from_root_cwd() {
    let mut root = RootVFS::new(memory("root"));

    assert_eq!(root.mkdir(b"tmp", 0o755), 0);

    assert_eq!(root.access(b"/tmp", F_OK), 0);
}

#[test]
fn test_relative_paths_resolve_from_configured_cwd() {
    let mut root = RootVFS::new(memory("root"));
    root.mkdir(b"/home", 0o755);
    root.mkdir(b"/home/leite", 0o755);
    root.set_cwd(b"/home/leite");

    assert!(root.open(b"hello.txt", O_CREAT, 0o644) > 0);

    assert_eq!(root.access(b"/home/leite/hello.txt", F_OK), 0);
}

#[test]
fn test_relative_paths_are_normalized_before_mount_dispatch() {
    let mut root = RootVFS::new(memory("root")).with_mount(b"/mnt", memory("mnt"));
    root.set_cwd(b"/mnt/projects");

    let (fs, path) = root.path_to_fs(b"../file.txt");

    assert_eq!(fs.id(), "mnt");
    assert_eq!(path, b"/file.txt".to_vec());
}

#[test]
fn test_openat_resolves_relative_at_fdcwd() {
    let mut root = RootVFS::new(memory("root"));
    root.mkdir(b"/work", 0o755);
    root.set_cwd(b"/work");

    assert!(root.openat(AT_FDCWD, b"out.txt", O_CREAT, 0o644) > 0);

    assert_eq!(root.access(b"/work/out.txt", F_OK), 0);
}

#[test]
fn test_openat_rejects_relative_non_cwd_dirfd() {
    let mut root = RootVFS::new(memory("root"));

    assert_ne!(root.openat(123, b"out.txt", O_CREAT, 0o644), 0);
}

#[test]
fn test_openat_resolves_relative_to_tracked_fd() {
    let mut root = RootVFS::new(memory("root"));
    root.mkdir(b"/work", 0o755);

    let dirfd = root.open(b"/work", O_RDONLY, 0);

    assert!(dirfd > 0);
    assert!(root.openat(dirfd, b"out.txt", O_CREAT, 0o644) > 0);
    assert_eq!(root.access(b"/work/out.txt", F_OK), 0);
}

#[test]
fn test_openat_relative_to_tracked_fd_normalizes_path() {
    let mut root = RootVFS::new(memory("root"));
    root.mkdir(b"/work", 0o755);
    root.mkdir(b"/work/build", 0o755);

    let dirfd = root.open(b"/work/build", O_RDONLY, 0);

    assert!(dirfd > 0);
    assert!(root.openat(dirfd, b"../out.txt", O_CREAT, 0o644) > 0);
    assert_eq!(root.access(b"/work/out.txt", F_OK), 0);
}

#[test]
fn test_openat_tracked_fd_keeps_virtual_mount_path() {
    let mut root = RootVFS::new(memory("root")).with_mount(b"/mnt", memory("mnt"));
    root.mkdir(b"/mnt/work", 0o755);

    let dirfd = root.open(b"/mnt/work", O_RDONLY, 0);

    assert!(dirfd > 0);
    assert!(root.openat(dirfd, b"out.txt", O_CREAT, 0o644) > 0);
    assert_eq!(root.access(b"/mnt/work/out.txt", F_OK), 0);
}

#[test]
fn test_failed_open_is_not_tracked() {
    let mut root = RootVFS::new(memory("root"));

    let fd = root.open(b"/missing", O_RDONLY, 0);

    assert!(fd < 0);
    assert_ne!(root.openat(fd, b"out.txt", O_CREAT, 0o644), 0);
}

#[test]
fn test_forget_fd_removes_openat_base() {
    let mut root = RootVFS::new(memory("root"));
    root.mkdir(b"/work", 0o755);

    let dirfd = root.open(b"/work", O_RDONLY, 0);
    root.forget_fd(dirfd);

    assert_ne!(root.openat(dirfd, b"out.txt", O_CREAT, 0o644), 0);
}

#[test]
fn deepest_mount_wins_and_mount_points_can_be_replaced() {
    let root = RootVFS::new(memory("root"))
        .with_mount(b"/a", memory("a"))
        .with_mount(b"/a/b", memory("ab"));
    let (fs, p) = root.path_to_fs(b"/a/b/c");
    assert_eq!(fs.id(), "ab");
    assert_eq!(p, b"/c".to_vec());
    let (fs, p) = root.path_to_fs(b"/a/x");
    assert_eq!(fs.id(), "a");
    assert_eq!(p, b"/x".to_vec());
    let (fs, p) = root.path_to_fs(b"/a/b");
    assert_eq!(fs.id(), "ab");
    assert_eq!(p, b"/".to_vec());
    let root = root.with_mount(b"/a/", memory("a2"));
    let (fs, _) = root.path_to_fs(b"/a/x");
    assert_eq!(fs.id(), "a2");
    assert_eq!(root.id(), "<RootVFS>");
}

#[test]
fn resolve_paths_against_cwd_and_descriptors() {
    let mut root = RootVFS::new(memory("root"));
    assert_eq!(root.resolve_path(b"x/../y/./z"), b"/y/z".to_vec());
    assert_eq!(root.resolve_path(b"/../.."), b"/".to_vec());
    root.set_cwd(b"/home/./me/");
    assert_eq!(root.resolve_path(b"f"), b"/home/me/f".to_vec());
    assert_eq!(root.resolve_openat_path(AT_FDCWD, b"f"), Some(b"/home/me/f".to_vec()));
    assert_eq!(root.resolve_openat_path(5, b"/abs/./p"), Some(b"/abs/p".to_vec()));
    assert_eq!(root.resolve_openat_path(5, b"rel"), None);
    let once = root.resolve_path(b"../a/./b/..");
    assert_eq!(once, b"/home/a".to_vec());
    assert_eq!(root.resolve_path(&once), once);
}

#[test]
fn stat_unlink_rmdir_and_read_dir_are_routed() {
    let mut root = RootVFS::new(memory("root")).with_mount(b"/mnt", memory("mnt"));
    assert_eq!(root.mkdir(b"/mnt/d", 0o700), 0);
    assert!(root.open(b"/mnt/d/f", O_CREAT, 0o600) > 0);
    let mut s = Stat::zeroed();
    assert_eq!(root.stat(b"/mnt/d", &mut s), 0);
    assert_eq!(s.st_mode, 0o40700);
    let listed = root.read_dir(b"/mnt/d").unwrap();
    assert_eq!(listed.len(), 1);
    assert_eq!(listed[0].name, b"f".to_vec());
    assert_ne!(root.rmdir(b"/mnt/d"), 0);
    assert_eq!(root.unlink(b"/mnt/d/f"), 0);
    assert_eq!(root.rmdir(b"/mnt/d"), 0);
    assert_eq!(root.stat(b"/mnt/d", &mut s), -1);
    let (mnt, _) = root.path_to_fs(b"/mnt");
    assert_ne!(mnt.access(b"/d", F_OK), 0);
}

#[test]
fn rename_stays_within_one_filesystem() {
    let mut root = RootVFS::new(memory("root")).with_mount(b"/mnt", memory("mnt"));
    assert!(root.open(b"/f", O_CREAT, 0o600) > 0);
    assert_eq!(root.rename(b"/f", b"/mnt/f"), -1);
    assert_eq!(root.access(b"/f", F_OK), 0);
    assert_eq!(root.rename(b"/f", b"/g"), 0);
    assert_eq!(root.access(b"/g", F_OK), 0);
    assert_ne!(root.access(b"/f", F_OK), 0);
}

#[test]
fn at_variants_resolve_like_openat() {
    let mut root = RootVFS::new(memory("root"));
    assert_eq!(root.mkdir(b"/work", 0o700), 0);
    let dirfd = root.open(b"/work", O_RDONLY, 0);
    assert!(dirfd > 0);
    assert_eq!(root.mkdirat(dirfd, b"sub", 0o700), 0);
    assert_eq!(root.access(b"/work/sub", F_OK), 0);
    assert!(root.openat(dirfd, b"sub/f", O_CREAT, 0o600) > 0);
    assert_eq!(root.renameat(dirfd, b"sub/f", AT_FDCWD, b"/work/g"), 0);
    assert_eq!(root.access(b"/work/g", F_OK), 0);
    assert_eq!(root.unlinkat(dirfd, b"g", 0), 0);
    assert_eq!(root.unlinkat(dirfd, b"sub", AT_REMOVEDIR), 0);
    assert_ne!(root.access(b"/work/sub", F_OK), 0);
    assert_eq!(root.mkdirat(999, b"x", 0o700), -1);
    assert_eq!(root.unlinkat(999, b"x", 0), -1);
    assert_eq!(root.renameat(999, b"x", AT_FDCWD, b"/y"), -1);
}

#[test]
fn fstat_and_dup_follow_tracked_descriptors() {
    let mut root = RootVFS::new(memory("root"));
    assert_eq!(root.mkdir(b"/d", 0o711), 0);
    let fd = root.open(b"/d", O_RDONLY, 0);
    let mut s = Stat::zeroed();
    assert_eq!(root.fstat(fd, &mut s), Some(0));
    assert_eq!(s.st_mode, 0o40711);
    assert_eq!(root.fstat(4242, &mut s), None);
    root.clone_fd(fd, 77);
    assert!(root.openat(77, b"f", O_CREAT, 0o600) > 0);
    assert_eq!(root.access(b"/d/f", F_OK), 0);
    root.clone_fd(4242, 77);
    assert_ne!(root.openat(77, b"g", O_CREAT, 0o600), 0);
}

#[test]
fn getdents64_walks_the_listing_once() {
    let mut root = RootVFS::new(memory("root"));
    assert_eq!(root.mkdir(b"/d", 0o700), 0);
    assert!(root.open(b"/d/a", O_CREAT, 0o600) > 0);
    let fd = root.open(b"/d", O_RDONLY, 0);
    // `.`, `..` and `a` each take a 24-byte record
    let (bytes, res) = root.getdents64(fd, 48).unwrap();
    assert_eq!(res.entries_consumed, 2);
    assert_eq!(res.bytes_written, 48);
    assert_eq!(bytes.len(), 48);
    assert_eq!(bytes[18], libc::DT_DIR);
    assert_eq!(&bytes[19..21], b".\0");
    let (bytes, res) = root.getdents64(fd, 4096).unwrap();
    assert_eq!(res.entries_consumed, 1);
    assert_eq!(res.bytes_written, 24);
    assert_eq!(bytes[18], libc::DT_REG);
    assert_eq!(&bytes[19..21], b"a\0");
    let (bytes, res) = root.getdents64(fd, 4096).unwrap();
    assert_eq!(res.entries_consumed, 0);
    assert_eq!(res.bytes_written, 0);
    assert!(bytes.is_empty());
    assert!(root.getdents64(999, 4096).is_none());
}

#[test]
fn getdents64_of_a_file_descriptor_is_none() {
    let mut root = RootVFS::new(memory("root"));
    let fd = root.open(b"/f", O_CREAT, 0o600);
    assert!(fd > 0);
    assert!(root.getdents64(fd, 4096).is_none());
    // the descriptor stays tracked and untouched
    let mut s = Stat::zeroed();
    assert!(root.fstat(fd, &mut s).is_some());
}

#[test]
fn fstat_follows_the_opened_node_after_unlink() {
    let mut root = RootVFS::new(memory("root"));
    let fd = root.open(b"/f", O_CREAT, 0o600);
    assert!(fd >= 0);
    let mut s = Stat::zeroed();
    assert_eq!(root.fstat(fd, &mut s), Some(0));
    let ino = s.st_ino;
    assert_eq!(s.st_nlink, 1);
    assert_eq!(root.unlink(b"/f"), 0);
    // a new file at the same path is another node
    assert!(root.open(b"/f", O_CREAT, 0o600) >= 0);
    let mut s = Stat::zeroed();
    assert_eq!(root.fstat(fd, &mut s), Some(0));
    assert_eq!(s.st_ino, ino);
    assert_eq!(s.st_nlink, 0);
}

#[test]
fn directory_descriptors_follow_their_directory_after_rename() {
    let mut root = RootVFS::new(memory("root"));
    assert_eq!(root.mkdir(b"/d", 0o700), 0);
    let dirfd = root.open(b"/d", O_RDONLY, 0);
    assert!(dirfd >= 0);
    assert_eq!(root.rename(b"/d", b"/e"), 0);
    // relative opens and mkdirs go through the opened directory
    assert!(root.openat(dirfd, b"a", O_CREAT, 0o600) >= 0);
    assert_eq!(root.mkdirat(dirfd, b"sub", 0o700), 0);
    assert_eq!(root.access(b"/e/a", F_OK), 0);
    assert_eq!(root.access(b"/e/sub", F_OK), 0);
    // a path with `..` still goes by the (stale) virtual path
    assert_eq!(root.mkdirat(dirfd, b"sub/../x", 0o700), -1);
    // the listing is that of the renamed directory: `.`, `..`, `a`, `sub`
    let (_, res) = root.getdents64(dirfd, 4096).unwrap();
    assert_eq!(res.entries_consumed, 4);
    let mut s = Stat::zeroed();
    assert_eq!(root.fstat(dirfd, &mut s), Some(0));
    assert_eq!(s.st_nlink, 3);
    root.forget_fd(dirfd);
    assert_eq!(root.fstat(dirfd, &mut s), None);
}
