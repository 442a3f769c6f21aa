use libc::{F_OK, O_CREAT, O_DIRECTORY, O_EXCL, O_RDONLY, O_RDWR};
use sandbox_vfs::filesystem::{LowLevelFS, Stat, VfsEntryKind};
use sandbox_vfs::impls::memory::{can_resolve_relative_to_opened_node, CountingBacking};
use sandbox_vfs::MemoryFS;

fn memory(id: &str) -> MemoryFS<CountingBacking> {
    MemoryFS::new(id, CountingBacking::new())
}

#[test]
fn root_exists_by_default() {
    let fs = memory("memory");
    assert_eq!(fs.access(b"/", F_OK), 0);
}

#[test]
fn creation_requires_existing_directory_parent() {
    let mut fs = memory("memory");
    assert_ne!(fs.open(b"/missing/file", O_CREAT, 0o644), 0);
    assert_eq!(fs.mkdir(b"/dir", 0o755), 0);
    assert!(fs.open(b"/dir/file", O_CREAT, 0o644) > 0);
}

#[test]
fn unlink_removes_file_from_namespace() {
    let mut fs = memory("memory");
    assert!(fs.open(b"/file", O_CREAT, 0o644) > 0);

    assert_eq!(fs.unlink(b"/file"), 0);

    assert_ne!(fs.access(b"/file", F_OK), 0);
}

#[test]
fn unlink_rejects_directories_and_rmdir_rejects_files() {
    let mut fs = memory("memory");
    assert!(fs.open(b"/file", O_CREAT, 0o644) > 0);
    assert_eq!(fs.mkdir(b"/dir", 0o755), 0);

    assert_ne!(fs.unlink(b"/dir"), 0);
    assert_ne!(fs.rmdir(b"/file"), 0);
    assert_eq!(fs.access(b"/dir", F_OK), 0);
    assert_eq!(fs.access(b"/file", F_OK), 0);
}

#[test]
fn rmdir_only_removes_empty_directories() {
    let mut fs = memory("memory");
    assert_eq!(fs.mkdir(b"/dir", 0o755), 0);
    assert!(fs.open(b"/dir/file", O_CREAT, 0o644) > 0);

    assert_ne!(fs.rmdir(b"/dir"), 0);
    assert_eq!(fs.unlink(b"/dir/file"), 0);
    assert_eq!(fs.rmdir(b"/dir"), 0);
    assert_ne!(fs.access(b"/dir", F_OK), 0);
}

#[test]
fn rename_moves_file_entry_without_replacing_node() {
    let mut fs = memory("memory");
    assert!(fs.open(b"/old", O_CREAT, 0o644) > 0);
    let mut before = Stat::zeroed();
    assert_eq!(fs.stat(b"/old", &mut before), 0);

    assert_eq!(fs.rename(b"/old", b"/new"), 0);

    assert_ne!(fs.access(b"/old", F_OK), 0);
    assert_eq!(fs.access(b"/new", F_OK), 0);
    let mut after = Stat::zeroed();
    assert_eq!(fs.stat(b"/new", &mut after), 0);
    assert_eq!(after.st_ino, before.st_ino);
}

#[test]
fn rename_replaces_existing_file() {
    let mut fs = memory("memory");
    assert!(fs.open(b"/old", O_CREAT, 0o644) > 0);
    assert!(fs.open(b"/new", O_CREAT, 0o644) > 0);
    let mut before = Stat::zeroed();
    assert_eq!(fs.stat(b"/old", &mut before), 0);

    assert_eq!(fs.rename(b"/old", b"/new"), 0);

    let mut after = Stat::zeroed();
    assert_eq!(fs.stat(b"/new", &mut after), 0);
    assert_eq!(after.st_ino, before.st_ino);
}

#[test]
fn rename_rejects_type_mismatches_and_nonempty_directory_replacement() {
    let mut fs = memory("memory");
    assert!(fs.open(b"/file", O_CREAT, 0o644) > 0);
    assert_eq!(fs.mkdir(b"/dir", 0o755), 0);
    assert_eq!(fs.mkdir(b"/nonempty", 0o755), 0);
    assert!(fs.open(b"/nonempty/file", O_CREAT, 0o644) > 0);

    assert_ne!(fs.rename(b"/file", b"/dir"), 0);
    assert_ne!(fs.rename(b"/dir", b"/file"), 0);
    assert_ne!(fs.rename(b"/dir", b"/nonempty"), 0);
}

#[test]
fn stable_inode_is_independent_of_path_hashing() {
    let mut fs = memory("memory");
    assert!(fs.open(b"/file", O_CREAT, 0o640) > 0);
    let mut statbuf = Stat::zeroed();
    assert_eq!(fs.stat(b"/file", &mut statbuf), 0);
    let inode = statbuf.st_ino;
    assert_ne!(inode, 0);
    assert_eq!(fs.stat(b"/file", &mut statbuf), 0);
    assert_eq!(statbuf.st_ino, inode);
    assert_eq!(statbuf.st_mode & 0o7777, 0o640);
}

#[test]
fn directory_entries_expose_child_inode() {
    let mut fs = memory("memory");
    assert!(fs.open(b"/file", O_CREAT, 0o644) > 0);
    let entries = fs.read_dir(b"/").unwrap();
    assert_eq!(entries[0].name, b"file".to_vec());
    let mut statbuf = Stat::zeroed();
    assert_eq!(fs.stat(b"/file", &mut statbuf), 0);
    assert_eq!(entries[0].ino, Some(statbuf.st_ino));
}

#[test]
fn counting_backing_numbers_objects_and_opens() {
    let mut fs = memory("memory");
    assert_eq!(fs.fs_id(), "memory");
    assert_eq!(fs.id(), "memory");
    // the root took object 10000; the file takes 10001 and its open 20000
    assert_eq!(fs.open(b"/a", O_CREAT | O_RDWR, 0o600), 20000);
    assert_eq!(fs.open(b"/a", O_RDONLY, 0), 20001);
    assert_eq!(fs.open(b"/missing", O_RDONLY, 0), -1);
}

#[test]
fn exclusive_create_refuses_existing_node() {
    let mut fs = memory("memory");
    assert!(fs.open(b"/a", O_CREAT | O_EXCL, 0o600) >= 0);
    assert_eq!(fs.open(b"/a", O_CREAT | O_EXCL, 0o600), -1);
    assert!(fs.open(b"/a", O_CREAT, 0o600) >= 0);
}

#[test]
fn directory_flag_refuses_files() {
    let mut fs = memory("memory");
    assert!(fs.open(b"/a", O_CREAT, 0o600) >= 0);
    assert_eq!(fs.mkdir(b"/d", 0o700), 0);
    assert_eq!(fs.open(b"/a", O_DIRECTORY, 0), -1);
    assert!(fs.open(b"/d", O_DIRECTORY, 0) >= 0);
}

#[test]
fn mkdir_refuses_existing_names_and_root() {
    let mut fs = memory("memory");
    assert_eq!(fs.mkdir(b"/d", 0o700), 0);
    assert_eq!(fs.mkdir(b"/d", 0o700), -1);
    assert_eq!(fs.mkdir(b"/", 0o700), -1);
    assert_eq!(fs.mkdir(b"/d/..", 0o700), -1);
}

#[test]
fn stat_reports_kind_mode_and_links() {
    let mut fs = memory("memory");
    assert_eq!(fs.mkdir(b"/d", 0o750), 0);
    assert_eq!(fs.mkdir(b"/d/e", 0o700), 0);
    assert!(fs.open(b"/d/f", O_CREAT, 0o604) >= 0);
    let mut s = Stat::zeroed();
    assert_eq!(fs.stat(b"/d", &mut s), 0);
    assert_eq!(s.st_mode, 0o40750);
    assert_eq!(s.st_nlink, 3);
    assert_eq!(s.st_blksize, 4096);
    assert_eq!(s.st_size, 0);
    let mut f = Stat::zeroed();
    assert_eq!(fs.stat(b"/d/f", &mut f), 0);
    assert_eq!(f.st_mode, 0o100604);
    assert_eq!(f.st_nlink, 1);
    let mut untouched = Stat::zeroed();
    untouched.st_ino = 77;
    assert_eq!(fs.stat(b"/nothing", &mut untouched), -1);
    assert_eq!(untouched.st_ino, 77);
}

#[test]
fn chmod_then_stat_reports_new_permissions() {
    let mut fs = memory("memory");
    assert!(fs.open(b"/f", O_CREAT, 0o600) >= 0);
    assert_eq!(fs.chmod(b"/f", 0o4755), 0);
    let mut s = Stat::zeroed();
    assert_eq!(fs.stat(b"/f", &mut s), 0);
    assert_eq!(s.st_mode & 0o7777, 0o4755);
    assert_eq!(fs.chmod(b"/missing", 0o600), -1);
}

#[test]
fn read_dir_lists_names_in_order_with_kinds() {
    let mut fs = memory("memory");
    assert_eq!(fs.mkdir(b"/b", 0o700), 0);
    assert!(fs.open(b"/a", O_CREAT, 0o600) >= 0);
    assert!(fs.open(b"/c", O_CREAT, 0o600) >= 0);
    let entries = fs.read_dir(b"/").unwrap();
    let names: Vec<Vec<u8>> = entries.iter().map(|e| e.name.clone()).collect();
    assert_eq!(names, vec![b"a".to_vec(), b"b".to_vec(), b"c".to_vec()]);
    assert_eq!(entries[1].kind, VfsEntryKind::Dir);
    assert_eq!(entries[0].kind, VfsEntryKind::File);
    assert!(fs.read_dir(b"/a").is_none());
    assert!(fs.read_dir(b"/missing").is_none());
}

#[test]
fn dot_and_dotdot_are_passed_over_from_the_root() {
    let mut fs = memory("memory");
    assert_eq!(fs.mkdir(b"/d", 0o700), 0);
    assert!(fs.open(b"/d/f", O_CREAT, 0o600) >= 0);
    assert_eq!(fs.access(b"/d/./f", F_OK), 0);
    // a `..` in an absolute path is passed over, not followed
    assert_eq!(fs.access(b"/d/../f", F_OK), 0);
    assert_eq!(fs.access(b"/../d", F_OK), 0);
}

#[test]
fn rename_directory_moves_its_subtree() {
    let mut fs = memory("memory");
    assert_eq!(fs.mkdir(b"/a", 0o700), 0);
    assert_eq!(fs.mkdir(b"/b", 0o700), 0);
    assert!(fs.open(b"/a/f", O_CREAT, 0o600) >= 0);
    assert_eq!(fs.rename(b"/a", b"/b/a"), 0);
    assert_eq!(fs.access(b"/b/a/f", F_OK), 0);
    assert_ne!(fs.access(b"/a", F_OK), 0);
    assert_ne!(fs.rename(b"/b", b"/b/a/inside"), 0);
}

#[test]
fn handles_keep_unlinked_nodes_until_released() {
    let mut fs = memory("memory");
    let opened = fs.open_with_handle(b"/f", O_CREAT | O_RDWR, 0o600);
    assert!(opened.fd >= 0);
    let h = opened.opened.unwrap();
    assert_eq!(fs.unlink(b"/f"), 0);
    let mut s = Stat::zeroed();
    assert_eq!(fs.handle_stat(h, &mut s), 0);
    assert_eq!(s.st_ino, h);
    assert_eq!(s.st_nlink, 0);
    fs.release_handle(h);
    assert_eq!(fs.handle_stat(h, &mut s), -1);
}

#[test]
fn opened_directory_resolves_relative_children() {
    let mut fs = memory("memory");
    assert_eq!(fs.mkdir(b"/work", 0o700), 0);
    let dir = fs.open_with_handle(b"/work", O_RDONLY, 0).opened.unwrap();
    assert_eq!(fs.handle_mkdir_child(dir, b"sub", 0o700), Some(0));
    let child = fs.handle_open_child(dir, b"sub/out.txt", O_CREAT | O_RDWR, 0o600).unwrap();
    assert!(child.fd >= 0);
    assert_eq!(fs.access(b"/work/sub/out.txt", F_OK), 0);
    // a path with `..` is left to the path resolver
    assert!(fs.handle_open_child(dir, b"sub/../out.txt", O_CREAT | O_RDWR, 0o600).is_none());
    assert_eq!(fs.access(b"/work/out.txt", F_OK), -1);
    assert!(fs.handle_open_child(dir, b"/abs", O_CREAT, 0o600).is_none());
    assert!(fs.handle_mkdir_child(dir, b"/abs", 0o700).is_none());
    let listed = fs.handle_read_dir(dir).unwrap();
    assert_eq!(listed.len(), 1);
    assert!(can_resolve_relative_to_opened_node(b"x/y"));
    assert!(!can_resolve_relative_to_opened_node(b"/x"));
    assert!(!can_resolve_relative_to_opened_node(b"x/../y"));
    assert!(!can_resolve_relative_to_opened_node(b".."));
    assert!(can_resolve_relative_to_opened_node(b"./x/..y"));
}

#[test]
fn opened_directory_stays_usable_after_rename() {
    let mut fs = memory("memory");
    assert_eq!(fs.mkdir(b"/old", 0o700), 0);
    let dir = fs.open_with_handle(b"/old", O_RDONLY, 0).opened.unwrap();
    assert_eq!(fs.rename(b"/old", b"/new"), 0);
    let child = fs.handle_open_child(dir, b"f", O_CREAT, 0o600).unwrap();
    assert!(child.fd >= 0);
    assert_eq!(fs.access(b"/new/f", F_OK), 0);
}

#[test]
fn opening_an_existing_path_twice_reaches_the_same_node() {
    let mut fs = memory("memory");
    assert!(fs.open(b"/f", O_CREAT, 0o600) >= 0);
    let first = fs.open_with_handle(b"/f", O_RDONLY, 0);
    let second = fs.open_with_handle(b"/f", O_RDWR, 0);
    assert!(first.fd >= 0 && second.fd >= 0);
    assert_ne!(first.fd, second.fd);
    assert_eq!(first.opened, second.opened);
    let mut s = Stat::zeroed();
    assert_eq!(fs.stat(b"/f", &mut s), 0);
    assert_eq!(first.opened, Some(s.st_ino));
}

#[test]
fn independent_opens_have_independent_offsets_and_shared_contents() {
    let mut fs = memory("memory");
    let first = fs.open(b"/file", O_CREAT | O_RDWR, 0o644);
    assert!(first >= 0);
    let left = fs.open(b"/file", O_RDONLY, 0);
    let right = fs.open(b"/file", O_RDONLY, 0);
    // each open is a description of its own, so offsets are not shared ...
    assert!(left >= 0 && right >= 0);
    assert_ne!(left, right);
    assert_ne!(left, first);
    // ... of the one backing object of /file (the root's object is 10000),
    // so contents are; the lookup flags are not handed on
    let opens = fs.backing().opened_objects();
    assert_eq!(opens.len(), 3);
    assert_eq!(opens[0], (10001, O_RDWR));
    assert_eq!(opens[1], (10001, O_RDONLY));
    assert_eq!(opens[2], (10001, O_RDONLY));
}

/// A backing whose kernel refuses new objects after the first one.
#[derive(Debug)]
struct RefusingBacking {
    created: bool,
}

impl sandbox_vfs::filesystem::NodeBacking for RefusingBacking {
    fn create_backing(&mut self, _kind: VfsEntryKind) -> i32 {
        if self.created {
            -1
        } else {
            self.created = true;
            3
        }
    }

    fn open_backing(&mut self, _backing_fd: i32, _flags: i32) -> i32 {
        -1
    }

    fn stat_backing(&self, _backing_fd: i32, _statbuf: &mut Stat) {}

    fn chmod_backing(&mut self, _backing_fd: i32, _mode: u32) {}

    fn release_backing(&mut self, _backing_fd: i32) {}
}

#[test]
fn a_refused_backing_object_creates_nothing() {
    let mut fs = MemoryFS::new("memory", RefusingBacking { created: false });
    assert_eq!(fs.mkdir(b"/d", 0o700), -1);
    assert_eq!(fs.access(b"/d", F_OK), -1);
    assert_eq!(fs.open(b"/f", O_CREAT | O_RDWR, 0o600), -1);
    assert_eq!(fs.access(b"/f", F_OK), -1);
    // the root stays, and a refused open of it gives -1 and no handle
    let r = fs.open_with_handle(b"/", O_RDONLY, 0);
    assert_eq!(r.fd, -1);
    assert!(r.opened.is_none());
    assert!(fs.read_dir(b"/").unwrap().is_empty());
}

#[test]
fn a_node_releases_its_object_once_when_it_goes_away() {
    let mut fs = memory("memory");
    // the root is object 10000, /a 10001, /b 10002
    assert!(fs.open(b"/a", O_CREAT, 0o600) >= 0);
    let h = fs.open_with_handle(b"/b", O_CREAT, 0o600).opened.unwrap();
    assert_eq!(fs.unlink(b"/a"), 0);
    assert_eq!(fs.backing().released_objects().as_slice(), &[10001]);
    // a held node keeps its object until its last handle goes
    assert_eq!(fs.unlink(b"/b"), 0);
    assert_eq!(fs.backing().released_objects().as_slice(), &[10001]);
    fs.release_handle(h);
    assert_eq!(fs.backing().released_objects().as_slice(), &[10001, 10002]);
    fs.release_handle(h);
    assert_eq!(fs.backing().released_objects().len(), 2);
    // a replaced file goes away too
    assert!(fs.open(b"/c", O_CREAT, 0o600) >= 0);
    assert!(fs.open(b"/d", O_CREAT, 0o600) >= 0);
    assert_eq!(fs.rename(b"/c", b"/d"), 0);
    assert_eq!(fs.backing().released_objects().as_slice(), &[10001, 10002, 10004]);
}
