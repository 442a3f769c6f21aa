use libc::{F_OK, O_APPEND, O_CREAT, O_RDONLY, O_RDWR, O_TRUNC, O_WRONLY};
use sandbox_vfs::filesystem::{LowLevelFS, Stat, VfsDirEntry, VfsEntryKind};
use sandbox_vfs::impls::memory::CountingBacking;
use sandbox_vfs::impls::overlay::{
    choose_visible, merge_dir_listings, merge_entries, open_writes, parent_chain_of, Layer,
};
use sandbox_vfs::{MemoryFS, OverlayFS};

fn memory(id: &str) -> MemoryFS<CountingBacking> {
    MemoryFS::new(id, CountingBacking::new())
}

fn entry(name: &str, kind: VfsEntryKind, ino: u64) -> VfsDirEntry {
    VfsDirEntry { name: name.as_bytes().to_vec(), kind, ino: Some(ino) }
}

#[test]
fn test_overlay_access() {
    let mut fs = OverlayFS::new("overlay", memory("top"), memory("base"));
    let test_path: &[u8] = b"/bin";
    assert_ne!(fs.access(test_path, F_OK), 0);

    // Ensure created items go to top layer and are visible in main fs
    fs.mkdir(test_path, 0);
    assert_eq!(fs.top_layer().access(test_path, F_OK), 0);
    assert_eq!(fs.access(test_path, F_OK), 0);
}

#[test]
fn test_overlay_creates_parent_dirs_without_touching_root() {
    let top = memory("top");
    let mut base = memory("base");
    base.mkdir(b"/home", 0);
    base.mkdir(b"/home/leite", 0);

    let mut fs = OverlayFS::new("overlay", top, base);
    fs.open(b"/home/leite/hello.txt", O_CREAT | O_WRONLY, 0o644);

    assert_eq!(fs.top_layer().access(b"/home", F_OK), 0);
    assert_eq!(fs.top_layer().access(b"/home/leite", F_OK), 0);
}

#[test]
fn test_overlay_forwards_opened_file_handle() {
    let mut fs = OverlayFS::new("overlay", memory("top"), memory("base"));

    let result = fs.open_with_handle(b"/file.txt", O_CREAT | O_WRONLY, 0o644);

    assert!(result.fd >= 0);
    assert!(result.opened.is_some());
}

#[test]
fn writes_go_to_the_top_and_reads_to_the_visible_layer() {
    let mut base = memory("base");
    assert!(base.open(b"/seed", O_CREAT, 0o600) >= 0);
    let mut fs = OverlayFS::new("overlay", memory("top"), base);
    assert_eq!(fs.id(), "overlay");
    assert_eq!(fs.access(b"/seed", F_OK), 0);
    assert_ne!(fs.top_layer().access(b"/seed", F_OK), 0);
    // a read-only open is served by the base layer
    assert!(fs.open(b"/seed", O_RDONLY, 0) >= 0);
    assert_ne!(fs.top_layer().access(b"/seed", F_OK), 0);
    // a writing open creates in the top layer only
    assert!(fs.open(b"/new", O_CREAT | O_RDWR, 0o600) >= 0);
    assert_eq!(fs.top_layer().access(b"/new", F_OK), 0);
    assert_ne!(fs.base_layer().access(b"/new", F_OK), 0);
}

#[test]
fn unlink_and_rename_prefer_the_top_layer() {
    let mut base = memory("base");
    assert!(base.open(b"/both", O_CREAT, 0o600) >= 0);
    let mut top = memory("top");
    assert!(top.open(b"/both", O_CREAT, 0o600) >= 0);
    let mut fs = OverlayFS::new("overlay", top, base);
    assert_eq!(fs.unlink(b"/both"), 0);
    assert_ne!(fs.top_layer().access(b"/both", F_OK), 0);
    // the base copy shows through again
    assert_eq!(fs.access(b"/both", F_OK), 0);
    assert_eq!(fs.base_layer().access(b"/both", F_OK), 0);

    assert!(fs.open(b"/t", O_CREAT | O_WRONLY, 0o600) >= 0);
    assert_eq!(fs.rename(b"/t", b"/u"), 0);
    assert_eq!(fs.top_layer().access(b"/u", F_OK), 0);
}

#[test]
fn stat_and_chmod_go_to_the_visible_layer() {
    let mut base = memory("base");
    assert!(base.open(b"/f", O_CREAT, 0o600) >= 0);
    let mut fs = OverlayFS::new("overlay", memory("top"), base);
    assert_eq!(fs.chmod(b"/f", 0o640), 0);
    let mut s = Stat::zeroed();
    assert_eq!(fs.stat(b"/f", &mut s), 0);
    assert_eq!(s.st_mode & 0o7777, 0o640);
    let mut b = Stat::zeroed();
    assert_eq!(fs.base_layer().stat(b"/f", &mut b), 0);
    assert_eq!(b.st_mode & 0o7777, 0o640);
}

#[test]
fn middle_layer_is_seen_between_top_and_base() {
    let mut middle = memory("middle");
    assert!(middle.open(b"/m", O_CREAT, 0o600) >= 0);
    let fs = OverlayFS::new("overlay", memory("top"), memory("base")).with_extra_base(middle);
    assert_eq!(fs.access(b"/m", F_OK), 0);
    assert_ne!(fs.top_layer().access(b"/m", F_OK), 0);
    assert_ne!(fs.base_layer().access(b"/m", F_OK), 0);
}

#[test]
fn read_dir_merges_layers_with_upper_entries_first() {
    let mut base = memory("base");
    assert!(base.open(b"/a", O_CREAT, 0o600) >= 0);
    assert!(base.open(b"/b", O_CREAT, 0o600) >= 0);
    let mut top = memory("top");
    assert_eq!(top.mkdir(b"/b", 0o700), 0);
    assert!(top.open(b"/c", O_CREAT, 0o600) >= 0);
    let fs = OverlayFS::new("overlay", top, base);
    let listed = fs.read_dir(b"/").unwrap();
    let names: Vec<Vec<u8>> = listed.iter().map(|e| e.name.clone()).collect();
    assert_eq!(names, vec![b"b".to_vec(), b"c".to_vec(), b"a".to_vec()]);
    assert_eq!(listed[0].kind, VfsEntryKind::Dir);
    assert!(fs.read_dir(b"/c").is_none());
}

#[test]
fn merge_helpers_keep_the_first_entry_of_each_name() {
    let mut acc = vec![entry("x", VfsEntryKind::File, 1)];
    merge_entries(&mut acc, vec![entry("y", VfsEntryKind::Dir, 2), entry("x", VfsEntryKind::Dir, 3)]);
    assert_eq!(acc, vec![entry("x", VfsEntryKind::File, 1), entry("y", VfsEntryKind::Dir, 2)]);

    assert_eq!(merge_dir_listings(vec![None, None]), None);
    assert_eq!(merge_dir_listings(vec![None, Some(vec![])]), Some(vec![]));
    let merged = merge_dir_listings(vec![
        Some(vec![entry("a", VfsEntryKind::File, 1)]),
        None,
        Some(vec![entry("a", VfsEntryKind::File, 9), entry("b", VfsEntryKind::File, 2)]),
    ]);
    assert_eq!(
        merged,
        Some(vec![entry("a", VfsEntryKind::File, 1), entry("b", VfsEntryKind::File, 2)])
    );
}

#[test]
fn layer_choice_and_write_flags() {
    assert_eq!(choose_visible(true, Some(true)), Layer::Top);
    assert_eq!(choose_visible(false, Some(true)), Layer::Middle);
    assert_eq!(choose_visible(false, Some(false)), Layer::Base);
    assert_eq!(choose_visible(false, None), Layer::Base);
    assert!(!open_writes(O_RDONLY));
    assert!(open_writes(O_WRONLY));
    assert!(open_writes(O_RDWR));
    assert!(open_writes(O_APPEND));
    assert!(open_writes(O_CREAT));
    assert!(open_writes(O_TRUNC));
}

#[test]
fn parent_chain_lists_ancestors_outermost_first() {
    assert_eq!(
        parent_chain_of(b"/home/leite/hello.txt"),
        vec![b"/home".to_vec(), b"/home/leite".to_vec()]
    );
    assert_eq!(parent_chain_of(b"/file"), Vec::<Vec<u8>>::new());
    assert_eq!(parent_chain_of(b"/"), Vec::<Vec<u8>>::new());
}
