//! The Linux values of the open flags, file type bits and directory entry
//! types that the backends interpret (the values `libc` gives on x86_64).
use vstd::prelude::*;

verus! {

pub const O_RDONLY: i32 = 0;

pub const O_WRONLY: i32 = 1;

pub const O_RDWR: i32 = 2;

pub const O_CREAT: i32 = 64;

pub const O_EXCL: i32 = 128;

pub const O_TRUNC: i32 = 512;

pub const O_APPEND: i32 = 1024;

pub const O_DIRECTORY: i32 = 0x10000;

pub const O_NOFOLLOW: i32 = 0x20000;

pub const O_TMPFILE: i32 = 0x410000;

pub const F_OK: i32 = 0;

pub const AT_FDCWD: i32 = -100;

/// `unlinkat` removes a directory.
pub const AT_REMOVEDIR: i32 = 0x200;

pub const S_IFDIR: u32 = 0o40000;

pub const S_IFREG: u32 = 0o100000;

pub const DT_DIR: u8 = 4;

pub const DT_REG: u8 = 8;

pub const F_DUPFD: i32 = 0;

pub const F_GETFD: i32 = 1;

pub const F_GETFL: i32 = 3;

pub const F_GETLK: i32 = 5;

pub const F_SETLK: i32 = 6;

pub const F_SETLKW: i32 = 7;

pub const F_GETOWN: i32 = 9;

pub const F_OFD_GETLK: i32 = 36;

pub const F_OFD_SETLK: i32 = 37;

pub const F_OFD_SETLKW: i32 = 38;

pub const F_GETLEASE: i32 = 1025;

pub const F_DUPFD_CLOEXEC: i32 = 1030;

pub const F_GETPIPE_SZ: i32 = 1032;

pub const F_GET_SEALS: i32 = 1034;

} // verus!
