use sandbox_vfs::interpose::{
    backend_choice, fcntl_arg_kind, is_dot_name, materialize_next, materialized_dir_path,
    mode_arg_present, MaterializeStep, proc_fd_path, push_decimal, BackendChoice, FcntlArg, F_GETSIG_CMD,
    F_SETOWN_EX_CMD, MEMORY_FD_START,
};
use sandbox_vfs::filesystem::{VfsDirEntry, VfsEntryKind};
use sandbox_vfs::sys;

#[test]
fn system_constants_match_libc() {
    assert_eq!(sys::O_RDONLY, libc::O_RDONLY);
    assert_eq!(sys::O_WRONLY, libc::O_WRONLY);
    assert_eq!(sys::O_RDWR, libc::O_RDWR);
    assert_eq!(sys::O_CREAT, libc::O_CREAT);
    assert_eq!(sys::O_EXCL, libc::O_EXCL);
    assert_eq!(sys::O_TRUNC, libc::O_TRUNC);
    assert_eq!(sys::O_APPEND, libc::O_APPEND);
    assert_eq!(sys::O_DIRECTORY, libc::O_DIRECTORY);
    assert_eq!(sys::O_NOFOLLOW, libc::O_NOFOLLOW);
    assert_eq!(sys::O_TMPFILE, libc::O_TMPFILE);
    assert_eq!(sys::F_OK, libc::F_OK);
    assert_eq!(sys::AT_FDCWD, libc::AT_FDCWD);
    assert_eq!(sys::AT_REMOVEDIR, libc::AT_REMOVEDIR);
    assert_eq!(sys::S_IFDIR, libc::S_IFDIR);
    assert_eq!(sys::S_IFREG, libc::S_IFREG);
    assert_eq!(sys::DT_DIR, libc::DT_DIR);
    assert_eq!(sys::DT_REG, libc::DT_REG);
    assert_eq!(sys::F_DUPFD, libc::F_DUPFD);
    assert_eq!(sys::F_DUPFD_CLOEXEC, libc::F_DUPFD_CLOEXEC);
    assert_eq!(sys::F_GETFD, libc::F_GETFD);
    assert_eq!(sys::F_GETFL, libc::F_GETFL);
    assert_eq!(sys::F_GETLK, libc::F_GETLK);
    assert_eq!(sys::F_SETLK, libc::F_SETLK);
    assert_eq!(sys::F_SETLKW, libc::F_SETLKW);
    assert_eq!(sys::F_GETOWN, libc::F_GETOWN);
    assert_eq!(sys::F_OFD_GETLK, libc::F_OFD_GETLK);
    assert_eq!(sys::F_OFD_SETLK, libc::F_OFD_SETLK);
    assert_eq!(sys::F_OFD_SETLKW, libc::F_OFD_SETLKW);
    assert_eq!(sys::F_GETLEASE, libc::F_GETLEASE);
    assert_eq!(sys::F_GETPIPE_SZ, libc::F_GETPIPE_SZ);
    assert_eq!(sys::F_GET_SEALS, libc::F_GET_SEALS);
    assert_eq!(MEMORY_FD_START, 10000);
}

#[test]
fn open_reads_a_mode_only_when_creating() {
    assert!(mode_arg_present(libc::O_CREAT | libc::O_WRONLY));
    assert!(mode_arg_present(libc::O_TMPFILE | libc::O_RDWR));
    assert!(!mode_arg_present(libc::O_RDONLY));
    assert!(!mode_arg_present(libc::O_NOFOLLOW | libc::O_APPEND));
    // O_TMPFILE holds the O_DIRECTORY bit, so that bit alone counts as well
    assert!(mode_arg_present(libc::O_DIRECTORY));
}

#[test]
fn fcntl_commands_are_sorted_by_argument() {
    assert_eq!(fcntl_arg_kind(libc::F_DUPFD), FcntlArg::Duplicate);
    assert_eq!(fcntl_arg_kind(libc::F_DUPFD_CLOEXEC), FcntlArg::Duplicate);
    assert_eq!(fcntl_arg_kind(libc::F_GETFL), FcntlArg::NoArg);
    assert_eq!(fcntl_arg_kind(F_GETSIG_CMD), FcntlArg::NoArg);
    assert_eq!(fcntl_arg_kind(libc::F_SETLK), FcntlArg::Pointer);
    assert_eq!(fcntl_arg_kind(F_SETOWN_EX_CMD), FcntlArg::Pointer);
    assert_eq!(fcntl_arg_kind(libc::F_SETFL), FcntlArg::Int);
    assert_eq!(fcntl_arg_kind(libc::F_SETFD), FcntlArg::Int);
}

#[test]
fn backend_variable_selects_the_backend() {
    assert_eq!(backend_choice(None), BackendChoice::Overlay);
    assert_eq!(backend_choice(Some(b"memory")), BackendChoice::Memory);
    assert_eq!(backend_choice(Some(b"overlay")), BackendChoice::Overlay);
    assert_eq!(backend_choice(Some(b"Memory")), BackendChoice::Invalid);
    assert_eq!(backend_choice(Some(b"")), BackendChoice::Invalid);
}

#[test]
fn materialized_names_and_paths() {
    assert!(is_dot_name(b"."));
    assert!(is_dot_name(b".."));
    assert!(!is_dot_name(b"..."));
    assert!(!is_dot_name(b".hidden"));
    assert_eq!(proc_fd_path(17), b"/proc/self/fd/17".to_vec());
    assert_eq!(materialized_dir_path(42, 0), b"/tmp/sandbox-vfs-opendir-42-0".to_vec());
    let mut out = b"x".to_vec();
    push_decimal(&mut out, -305);
    assert_eq!(out, b"x-305".to_vec());
}

#[test]
fn materializing_skips_dots_and_rolls_back_on_failure() {
    let e = |name: &str, kind| VfsDirEntry { name: name.as_bytes().to_vec(), kind, ino: None };
    let entries = vec![
        e(".", VfsEntryKind::Dir),
        e("..", VfsEntryKind::Dir),
        e("a", VfsEntryKind::File),
        e("..", VfsEntryKind::Dir),
        e("b", VfsEntryKind::Dir),
    ];
    assert_eq!(materialize_next(&entries, 0, None), MaterializeStep::Create(2));
    assert_eq!(materialize_next(&entries, 3, Some(0)), MaterializeStep::Create(4));
    assert_eq!(materialize_next(&entries, 5, Some(0)), MaterializeStep::Done);
    assert_eq!(materialize_next(&entries, 3, Some(-1)), MaterializeStep::RollBack);
    assert_eq!(materialize_next(&entries[..2], 0, None), MaterializeStep::Done);
}
