//! The filesystem trait definitions needed to implement new virtual filesystems
use vstd::prelude::*;

use crate::path::is_absolute;

verus! {

/// Coarse file type exposed by VFS directory listings.
#[derive(Debug, Clone, Copy, PartialEq, Eq, Structural)]
pub enum VfsEntryKind {
    File,
    Dir,
}

/// A single child returned from a virtual directory listing.
///
/// `name` is only the basename of the child. It must not include `/`, `.`, or
/// `..`; callers that need those synthetic entries add them at the VFS boundary.
#[derive(Debug, Clone, PartialEq, Eq)]
pub struct VfsDirEntry {
    pub name: Vec<u8>,
    pub kind: VfsEntryKind,
    /// Backend-provided inode number, when the backend has stable node identity.
    pub ino: Option<u64>,
}

/// The fields of a `stat` record that backends fill.
#[derive(Debug, Clone, Copy, PartialEq, Eq, Structural)]
pub struct Stat {
    pub st_dev: u64,
    pub st_ino: u64,
    pub st_nlink: u64,
    pub st_mode: u32,
    pub st_uid: u32,
    pub st_gid: u32,
    pub st_rdev: u64,
    pub st_size: i64,
    pub st_blksize: i64,
    pub st_blocks: i64,
    pub st_atime: i64,
    pub st_atime_nsec: i64,
    pub st_mtime: i64,
    pub st_mtime_nsec: i64,
    pub st_ctime: i64,
    pub st_ctime_nsec: i64,
}

pub open spec fn zero_stat() -> Stat {
    Stat {
        st_dev: 0,
        st_ino: 0,
        st_nlink: 0,
        st_mode: 0,
        st_uid: 0,
        st_gid: 0,
        st_rdev: 0,
        st_size: 0,
        st_blksize: 0,
        st_blocks: 0,
        st_atime: 0,
        st_atime_nsec: 0,
        st_mtime: 0,
        st_mtime_nsec: 0,
        st_ctime: 0,
        st_ctime_nsec: 0,
    }
}

impl Stat {
    /// A record with every field zero.
    pub fn zeroed() -> (r: Stat)
        ensures
            r == zero_stat(),
    {
        Stat {
            st_dev: 0,
            st_ino: 0,
            st_nlink: 0,
            st_mode: 0,
            st_uid: 0,
            st_gid: 0,
            st_rdev: 0,
            st_size: 0,
            st_blksize: 0,
            st_blocks: 0,
            st_atime: 0,
            st_atime_nsec: 0,
            st_mtime: 0,
            st_mtime_nsec: 0,
            st_ctime: 0,
            st_ctime_nsec: 0,
        }
    }
}

/// A real file descriptor and, when the backend keeps one, the handle of the
/// opened object (for `MemoryFS`, the id of the opened node).
#[derive(Debug)]
pub struct OpenResult {
    pub fd: i32,
    pub opened: Option<u64>,
}

impl OpenResult {
    pub fn from_fd(fd: i32) -> (r: Self)
        ensures
            r.fd == fd,
            r.opened is None,
    {
        Self { fd, opened: None }
    }
}

/// The kernel objects behind the nodes of a `MemoryFS`: one anonymous file
/// per node, opened anew for every `open`, closed when the node goes away.
///
/// Each call is described by a relation between the backing before, the
/// backing after, the arguments and the answer. What the kernel answers is
/// its own affair: an implementation that does not state its relations
/// promises nothing beyond the types, and callers hold to the answer they got.
pub trait NodeBacking: Sized {
    /// `create_backing(kind)` may answer `r` and leave the backing as `post`.
    open spec fn spec_create(&self, post: &Self, kind: VfsEntryKind, r: i32) -> bool {
        true
    }

    /// `open_backing(backing_fd, flags)` may answer `r` and leave the backing as `post`.
    open spec fn spec_open(&self, post: &Self, backing_fd: i32, flags: i32, r: i32) -> bool {
        true
    }

    /// `stat_backing(backing_fd, ..)` may fill the record with `s`.
    open spec fn spec_stat(&self, backing_fd: i32, s: Stat) -> bool {
        true
    }

    /// `chmod_backing(backing_fd, mode)` may leave the backing as `post`.
    open spec fn spec_chmod(&self, post: &Self, backing_fd: i32, mode: u32) -> bool {
        true
    }

    /// `release_backing(backing_fd)` may leave the backing as `post`.
    open spec fn spec_release(&self, post: &Self, backing_fd: i32) -> bool {
        true
    }

    /// Creates the backing object of a new node; a negative value is failure.
    fn create_backing(&mut self, kind: VfsEntryKind) -> (r: i32)
        ensures
            old(self).spec_create(final(self), kind, r),
    ;

    /// Opens a fresh description of a backing object with the given flags.
    fn open_backing(&mut self, backing_fd: i32, flags: i32) -> (r: i32)
        ensures
            old(self).spec_open(final(self), backing_fd, flags, r),
    ;

    /// Fills `statbuf` with what the kernel knows of a backing object.
    fn stat_backing(&self, backing_fd: i32, statbuf: &mut Stat)
        ensures
            self.spec_stat(backing_fd, *final(statbuf)),
    ;

    /// Changes the permission bits of a backing object.
    fn chmod_backing(&mut self, backing_fd: i32, mode: u32)
        ensures
            old(self).spec_chmod(final(self), backing_fd, mode),
    ;

    /// Releases the backing object of a node that no longer exists.
    fn release_backing(&mut self, backing_fd: i32)
        ensures
            old(self).spec_release(final(self), backing_fd),
    ;
}

/// The entries of a listing, as a sequence.
pub open spec fn listing_view(r: Option<Vec<VfsDirEntry>>) -> Option<Seq<VfsDirEntry>> {
    match r {
        Some(v) => Some(v@),
        None => None,
    }
}

/// File system implementations must implement this trait
/// All path parameters are absolute, starting with '/'
///
/// Each operation is described by a relation between the state before, the
/// state after, the arguments and the result (`spec_open` for `open`, and so
/// on). An implementation states its own relations; one that does not
/// promises nothing beyond the types.
pub trait LowLevelFS {
    /// The well-formedness of the backend's own state, kept by every operation.
    open spec fn fs_inv(&self) -> bool {
        true
    }

    /// What `access` may return.
    open spec fn spec_access(&self, path: Seq<u8>, mode: i32, r: i32) -> bool {
        true
    }

    /// What `open` does: from `self` to `post`, returning `r`.
    open spec fn spec_open(&self, post: &Self, path: Seq<u8>, flag: i32, mode: u32, r: i32) -> bool {
        true
    }

    /// What `openat` does.
    open spec fn spec_openat(
        &self,
        post: &Self,
        dirfd: i32,
        path: Seq<u8>,
        flag: i32,
        mode: u32,
        r: i32,
    ) -> bool {
        true
    }

    /// What `mkdir` does.
    open spec fn spec_mkdir(&self, post: &Self, path: Seq<u8>, mode: u32, r: i32) -> bool {
        true
    }

    /// What `unlink` does.
    open spec fn spec_unlink(&self, post: &Self, path: Seq<u8>, r: i32) -> bool {
        true
    }

    /// What `rmdir` does.
    open spec fn spec_rmdir(&self, post: &Self, path: Seq<u8>, r: i32) -> bool {
        true
    }

    /// What `rename` does.
    open spec fn spec_rename(&self, post: &Self, old_path: Seq<u8>, new_path: Seq<u8>, r: i32) -> bool {
        true
    }

    /// What `chmod` does.
    open spec fn spec_chmod(&self, post: &Self, path: Seq<u8>, mode: u32, r: i32) -> bool {
        true
    }

    /// What `stat` does to the record, `before` it and `after` it.
    open spec fn spec_stat(&self, path: Seq<u8>, before: Stat, r: i32, after: Stat) -> bool {
        true
    }

    /// What `open_with_handle` does.
    open spec fn spec_open_with_handle(
        &self,
        post: &Self,
        path: Seq<u8>,
        flag: i32,
        mode: u32,
        r: OpenResult,
    ) -> bool {
        true
    }

    /// What `read_dir` may give.
    open spec fn spec_read_dir(&self, path: Seq<u8>, r: Option<Seq<VfsDirEntry>>) -> bool {
        true
    }

    /// What `stat_opened` does to the record: `None`, with the record left
    /// alone, when the backend keeps no opened object `h`.
    open spec fn spec_stat_opened(&self, h: u64, before: Stat, r: Option<i32>, after: Stat) -> bool {
        true
    }

    /// What `read_dir_opened` may give: `None` when the backend keeps no
    /// opened object `h`, otherwise the listing of that object.
    open spec fn spec_read_dir_opened(&self, h: u64, r: Option<Option<Seq<VfsDirEntry>>>) -> bool {
        true
    }

    /// What `open_child` does.
    open spec fn spec_open_child(
        &self,
        post: &Self,
        h: u64,
        path: Seq<u8>,
        flag: i32,
        mode: u32,
        r: Option<OpenResult>,
    ) -> bool {
        true
    }

    /// What `mkdir_child` does.
    open spec fn spec_mkdir_child(&self, post: &Self, h: u64, path: Seq<u8>, mode: u32, r: Option<i32>) -> bool {
        true
    }

    /// What `release_opened` does.
    open spec fn spec_release_opened(&self, post: &Self, h: u64) -> bool {
        true
    }

    /// An identifier to uniquely define the FS
    fn id(&self) -> &str;

    fn access(&self, path: &[u8], mode: i32) -> (r: i32)
        requires
            self.fs_inv(),
            is_absolute(path@),
        ensures
            self.spec_access(path@, mode, r),
    ;

    fn open(&mut self, path: &[u8], flag: i32, mode: u32) -> (r: i32)
        requires
            old(self).fs_inv(),
            is_absolute(path@),
        ensures
            final(self).fs_inv(),
            old(self).spec_open(&*final(self), path@, flag, mode, r),
    ;

    fn openat(&mut self, dirfd: i32, path: &[u8], flag: i32, mode: u32) -> (r: i32)
        requires
            old(self).fs_inv(),
            is_absolute(path@),
        ensures
            final(self).fs_inv(),
            old(self).spec_openat(&*final(self), dirfd, path@, flag, mode, r),
    ;

    fn mkdir(&mut self, path: &[u8], mode: u32) -> (r: i32)
        requires
            old(self).fs_inv(),
            is_absolute(path@),
        ensures
            final(self).fs_inv(),
            old(self).spec_mkdir(&*final(self), path@, mode, r),
    ;

    fn unlink(&mut self, path: &[u8]) -> (r: i32)
        requires
            old(self).fs_inv(),
            is_absolute(path@),
        ensures
            final(self).fs_inv(),
            old(self).spec_unlink(&*final(self), path@, r),
    ;

    fn rmdir(&mut self, path: &[u8]) -> (r: i32)
        requires
            old(self).fs_inv(),
            is_absolute(path@),
        ensures
            final(self).fs_inv(),
            old(self).spec_rmdir(&*final(self), path@, r),
    ;

    fn rename(&mut self, old_path: &[u8], new_path: &[u8]) -> (r: i32)
        requires
            old(self).fs_inv(),
            is_absolute(old_path@),
            is_absolute(new_path@),
        ensures
            final(self).fs_inv(),
            old(self).spec_rename(&*final(self), old_path@, new_path@, r),
    ;

    fn chmod(&mut self, path: &[u8], mode: u32) -> (r: i32)
        requires
            old(self).fs_inv(),
            is_absolute(path@),
        ensures
            final(self).fs_inv(),
            old(self).spec_chmod(&*final(self), path@, mode, r),
    ;

    fn stat(&self, path: &[u8], statbuf: &mut Stat) -> (r: i32)
        requires
            self.fs_inv(),
            is_absolute(path@),
        ensures
            self.spec_stat(path@, *old(statbuf), r, *final(statbuf)),
    ;

    /// Open a path and optionally retain backend-owned identity for fd operations.
    fn open_with_handle(&mut self, path: &[u8], flag: i32, mode: u32) -> (r: OpenResult)
        requires
            old(self).fs_inv(),
            is_absolute(path@),
        ensures
            final(self).fs_inv(),
            old(self).spec_open_with_handle(&*final(self), path@, flag, mode, r),
    ;

    /// Return the direct children of `path` when the backend can enumerate it virtually.
    ///
    /// Backends that delegate directory fds to the host kernel give `None`;
    /// the libc hook then falls back to the real `getdents64` syscall.
    fn read_dir(&self, path: &[u8]) -> (r: Option<Vec<VfsDirEntry>>)
        requires
            self.fs_inv(),
            is_absolute(path@),
        ensures
            self.spec_read_dir(path@, listing_view(r)),
    ;

    /// Fills `statbuf` for the opened object `h` that an `open_with_handle`
    /// gave; `None` when the backend keeps no such object.
    fn stat_opened(&self, h: u64, statbuf: &mut Stat) -> (r: Option<i32>)
        requires
            self.fs_inv(),
        ensures
            self.spec_stat_opened(h, *old(statbuf), r, *final(statbuf)),
    ;

    /// The entries of the opened directory `h`; `None` when the backend keeps
    /// no such object.
    fn read_dir_opened(&self, h: u64) -> (r: Option<Option<Vec<VfsDirEntry>>>)
        requires
            self.fs_inv(),
        ensures
            self.spec_read_dir_opened(
                h,
                match r {
                    Some(l) => Some(listing_view(l)),
                    None => None,
                },
            ),
    ;

    /// Opens `path` relative to the opened object `h`, when the backend can
    /// do so without going back through a virtual path lookup.
    fn open_child(&mut self, h: u64, path: &[u8], flag: i32, mode: u32) -> (r: Option<OpenResult>)
        requires
            old(self).fs_inv(),
        ensures
            final(self).fs_inv(),
            old(self).spec_open_child(&*final(self), h, path@, flag, mode, r),
    ;

    /// Creates the directory `path` relative to the opened object `h`, when
    /// the backend can do so without going back through a virtual path lookup.
    fn mkdir_child(&mut self, h: u64, path: &[u8], mode: u32) -> (r: Option<i32>)
        requires
            old(self).fs_inv(),
        ensures
            final(self).fs_inv(),
            old(self).spec_mkdir_child(&*final(self), h, path@, mode, r),
    ;

    /// Gives back the opened object `h` (its descriptor was closed).
    fn release_opened(&mut self, h: u64)
        requires
            old(self).fs_inv(),
        ensures
            final(self).fs_inv(),
            old(self).spec_release_opened(&*final(self), h),
    ;
}

} // verus!
