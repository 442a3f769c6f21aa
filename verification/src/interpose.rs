//! The decisions of the libc interposition layer: which backend to build,
//! how the variadic arguments of `open` and `fcntl` are read, and the names
//! of the paths that the layer itself opens.
use vstd::prelude::*;

use crate::filesystem::VfsDirEntry;
use crate::path::{append_bytes, dot, dotdot, is_normal};
use crate::sys::{
    F_DUPFD, F_DUPFD_CLOEXEC, F_GETFD, F_GETFL, F_GETLEASE, F_GETLK, F_GETOWN, F_GETPIPE_SZ,
    F_GET_SEALS, F_OFD_GETLK, F_OFD_SETLK, F_OFD_SETLKW, F_SETLK, F_SETLKW, O_CREAT, O_TMPFILE,
};

verus! {

pub const MEMORY_FD_START: usize = 10000;

pub const F_GETSIG_CMD: i32 = 11;

pub const F_SETOWN_EX_CMD: i32 = 15;

pub const F_GETOWN_EX_CMD: i32 = 16;

pub const F_GETOWNER_UIDS_CMD: i32 = 17;

pub const F_GET_RW_HINT_CMD: i32 = 1035;

pub const F_SET_RW_HINT_CMD: i32 = 1036;

pub const F_GET_FILE_RW_HINT_CMD: i32 = 1037;

pub const F_SET_FILE_RW_HINT_CMD: i32 = 1038;

/// Whether `open` was given a mode argument: only with `O_CREAT` or `O_TMPFILE`.
pub open spec fn has_mode_arg(oflag: i32) -> bool {
    oflag & (O_CREAT | O_TMPFILE) != 0
}

pub fn mode_arg_present(oflag: i32) -> (r: bool)
    ensures
        r == has_mode_arg(oflag),
{
    oflag & (O_CREAT | O_TMPFILE) != 0
}

/// How `fcntl` reads its third argument and what it does with the result.
#[derive(Debug, Clone, Copy, PartialEq, Eq, Structural)]
pub enum FcntlArg {
    /// An `int` lower bound; the result duplicates the descriptor.
    Duplicate,
    /// No argument.
    NoArg,
    /// A pointer.
    Pointer,
    /// An `int`.
    Int,
}

pub open spec fn fcntl_arg(cmd: i32) -> FcntlArg {
    if cmd == F_DUPFD || cmd == F_DUPFD_CLOEXEC {
        FcntlArg::Duplicate
    } else if cmd == F_GETFD || cmd == F_GETFL || cmd == F_GETOWN || cmd == F_GETSIG_CMD || cmd
        == F_GETLEASE || cmd == F_GETPIPE_SZ || cmd == F_GET_SEALS {
        FcntlArg::NoArg
    } else if cmd == F_GETLK || cmd == F_SETLK || cmd == F_SETLKW || cmd == F_OFD_GETLK || cmd
        == F_OFD_SETLK || cmd == F_OFD_SETLKW || cmd == F_GETOWN_EX_CMD || cmd == F_SETOWN_EX_CMD
        || cmd == F_GETOWNER_UIDS_CMD || cmd == F_GET_RW_HINT_CMD || cmd == F_SET_RW_HINT_CMD || cmd
        == F_GET_FILE_RW_HINT_CMD || cmd == F_SET_FILE_RW_HINT_CMD {
        FcntlArg::Pointer
    } else {
        FcntlArg::Int
    }
}

pub fn fcntl_arg_kind(cmd: i32) -> (r: FcntlArg)
    ensures
        r == fcntl_arg(cmd),
{
    if cmd == F_DUPFD || cmd == F_DUPFD_CLOEXEC {
        FcntlArg::Duplicate
    } else if cmd == F_GETFD || cmd == F_GETFL || cmd == F_GETOWN || cmd == F_GETSIG_CMD || cmd
        == F_GETLEASE || cmd == F_GETPIPE_SZ || cmd == F_GET_SEALS {
        FcntlArg::NoArg
    } else if cmd == F_GETLK || cmd == F_SETLK || cmd == F_SETLKW || cmd == F_OFD_GETLK || cmd
        == F_OFD_SETLK || cmd == F_OFD_SETLKW || cmd == F_GETOWN_EX_CMD || cmd == F_SETOWN_EX_CMD
        || cmd == F_GETOWNER_UIDS_CMD || cmd == F_GET_RW_HINT_CMD || cmd == F_SET_RW_HINT_CMD || cmd
        == F_GET_FILE_RW_HINT_CMD || cmd == F_SET_FILE_RW_HINT_CMD {
        FcntlArg::Pointer
    } else {
        FcntlArg::Int
    }
}

/// The backend that the interposition layer builds.
#[derive(Debug, Clone, Copy, PartialEq, Eq, Structural)]
pub enum BackendChoice {
    /// A `MemoryFS` as the root.
    Memory,
    /// An overlay of an upper directory over a lower one.
    Overlay,
    /// Anything else, which is refused.
    Invalid,
}


fn bytes_are(v: &[u8], expected: &[u8]) -> (r: bool)
    ensures
        r == (v@ == expected@),
{
    crate::path::bytes_equal(v, expected)
}

/// The backend named by the value of the backend variable, as text (unset,
/// or not text, means overlay).
pub fn backend_choice(value: Option<&[u8]>) -> (r: BackendChoice)
    ensures
        r == (match value {
            None => BackendChoice::Overlay,
            Some(v) => if v@ == seq![109u8, 101, 109, 111, 114, 121] {
                BackendChoice::Memory
            } else if v@ == seq![111u8, 118, 101, 114, 108, 97, 121] {
                BackendChoice::Overlay
            } else {
                BackendChoice::Invalid
            },
        }),
{
    match value {
        None => BackendChoice::Overlay,
        Some(v) => {
            let memory: [u8; 6] = [109, 101, 109, 111, 114, 121];
            let overlay: [u8; 7] = [111, 118, 101, 114, 108, 97, 121];
            assert(memory@ =~= seq![109u8, 101, 109, 111, 114, 121]);
            assert(overlay@ =~= seq![111u8, 118, 101, 114, 108, 97, 121]);
            if bytes_are(v, memory.as_slice()) {
                BackendChoice::Memory
            } else if bytes_are(v, overlay.as_slice()) {
                BackendChoice::Overlay
            } else {
                BackendChoice::Invalid
            }
        },
    }
}

/// Whether a listed name is one of the synthetic `.` and `..` entries.
pub fn is_dot_name(name: &[u8]) -> (r: bool)
    ensures
        r == (name@ == dot() || name@ == dotdot()),
{
    if name.len() == 1 && name[0] == 46 {
        assert(name@ =~= dot());
        return true;
    }
    if name.len() == 2 && name[0] == 46 && name[1] == 46 {
        assert(name@ =~= dotdot());
        return true;
    }
    assert(name@ != dot()) by {
        if name@.len() == 1 {
            assert(name@[0] != dot()[0]);
        }
    }
    assert(name@ != dotdot()) by {
        if name@.len() == 2 {
            assert(name@[0] != dotdot()[0] || name@[1] != dotdot()[1]);
        }
    }
    false
}

/// The decimal digits of `n`.
pub open spec fn digits(n: nat) -> Seq<u8>
    decreases n,
{
    if n < 10 {
        seq![(48 + n) as u8]
    } else {
        digits(n / 10).push((48 + n % 10) as u8)
    }
}

/// The decimal form of `n`, with a minus sign when negative.
pub open spec fn decimal(n: int) -> Seq<u8> {
    if n < 0 {
        seq![45u8] + digits((-n) as nat)
    } else {
        digits(n as nat)
    }
}

/// Appends the decimal digits of `n`.
pub fn push_digits(out: &mut Vec<u8>, n: u64)
    ensures
        final(out)@ == old(out)@ + digits(n as nat),
    decreases n,
{
    if n < 10 {
        out.push((48 + n) as u8);
        assert(out@ =~= old(out)@ + digits(n as nat));
    } else {
        push_digits(out, n / 10);
        out.push((48 + n % 10) as u8);
        assert(out@ =~= old(out)@ + digits(n as nat));
    }
}

/// Appends the decimal form of `n`.
pub fn push_decimal(out: &mut Vec<u8>, n: i64)
    ensures
        final(out)@ == old(out)@ + decimal(n as int),
{
    if n < 0 {
        out.push(45);
        let m: u64 = if n == i64::MIN {
            9223372036854775808u64
        } else {
            (-n) as u64
        };
        push_digits(out, m);
        assert(out@ =~= old(out)@ + decimal(n as int));
    } else {
        push_digits(out, n as u64);
    }
}

/// The path under which a descriptor of this process is opened again.
pub open spec fn proc_fd_path_of(fd: i32) -> Seq<u8> {
    "/proc/self/fd/"@.map_values(|c: char| c as u8) + decimal(fd as int)
}

pub fn proc_fd_path(fd: i32) -> (r: Vec<u8>)
    ensures
        r@ == proc_fd_path_of(fd),
{
    let prefix: [u8; 14] = [47, 112, 114, 111, 99, 47, 115, 101, 108, 102, 47, 102, 100, 47];
    let mut out: Vec<u8> = Vec::new();
    append_bytes(&mut out, prefix.as_slice());
    proof {
        reveal_strlit("/proc/self/fd/");
        assert(prefix@ =~= "/proc/self/fd/"@.map_values(|c: char| c as u8));
    }
    push_decimal(&mut out, fd as i64);
    out
}

/// The scratch directory in which a virtual directory is materialized for
/// `opendir`: `/tmp/sandbox-vfs-opendir-<pid>-<n>`.
pub open spec fn materialized_dir_path_of(pid: u32, n: u64) -> Seq<u8> {
    "/tmp/sandbox-vfs-opendir-"@.map_values(|c: char| c as u8) + digits(pid as nat) + seq![45u8]
        + digits(n as nat)
}

pub fn materialized_dir_path(pid: u32, n: u64) -> (r: Vec<u8>)
    ensures
        r@ == materialized_dir_path_of(pid, n),
{
    let prefix: [u8; 25] = [
        47, 116, 109, 112, 47, 115, 97, 110, 100, 98, 111, 120, 45, 118, 102, 115, 45, 111, 112,
        101, 110, 100, 105, 114, 45,
    ];
    let mut out: Vec<u8> = Vec::new();
    append_bytes(&mut out, prefix.as_slice());
    proof {
        reveal_strlit("/tmp/sandbox-vfs-opendir-");
        assert(prefix@ =~= "/tmp/sandbox-vfs-opendir-"@.map_values(|c: char| c as u8));
    }
    push_digits(&mut out, pid as u64);
    out.push(45);
    push_digits(&mut out, n);
    assert(out@ =~= materialized_dir_path_of(pid, n));
    out
}

/// The next step of copying a virtual listing into a host directory, so
/// that `opendir` can read it from the host.
#[derive(Debug, Clone, Copy, PartialEq, Eq, Structural)]
pub enum MaterializeStep {
    /// Create the entry at this index: a directory, or an empty file.
    Create(usize),
    /// Every entry is there.
    Done,
    /// The last creation failed: remove what was created, last first, and give up.
    RollBack,
}

/// From `from` on, the entries before index `j` are all `.` or `..`, and
/// `j` is the end or an entry to create.
pub open spec fn next_to_create(entries: Seq<VfsDirEntry>, from: int, j: int) -> bool {
    &&& from <= j <= entries.len()
    &&& forall|k: int| from <= k < j ==> !is_normal(#[trigger] entries[k].name@)
    &&& j < entries.len() ==> is_normal(entries[j].name@)
}

/// What to do next, with the entries before `next` handled and `last` the
/// status of the last creation (`None` before the first): roll back after a
/// failure; otherwise create the next entry that is neither `.` nor `..`,
/// or stop when none is left.
pub open spec fn materialize_step(entries: Seq<VfsDirEntry>, next: int, last: Option<i32>) -> MaterializeStep {
    if last matches Some(x) && x != 0 {
        MaterializeStep::RollBack
    } else {
        let j = choose|j: int| next_to_create(entries, next, j);
        if j < entries.len() {
            MaterializeStep::Create(j as usize)
        } else {
            MaterializeStep::Done
        }
    }
}

/// The next step of copying `entries` into a host directory.
pub fn materialize_next(entries: &[VfsDirEntry], next: usize, last: Option<i32>) -> (r: MaterializeStep)
    requires
        next <= entries@.len(),
    ensures
        r == materialize_step(entries@, next as int, last),
        r matches MaterializeStep::Create(j) ==> next <= j < entries@.len() && next_to_create(
            entries@,
            next as int,
            j as int,
        ),
        r is Done ==> next_to_create(entries@, next as int, entries@.len() as int),
{
    match last {
        Some(x) => if x != 0 {
            return MaterializeStep::RollBack;
        },
        None => {},
    }
    let mut j = next;
    while j < entries.len()
        invariant
            next <= j <= entries@.len(),
            forall|k: int| next <= k < j ==> !is_normal(#[trigger] entries@[k].name@),
        ensures
            next <= j <= entries@.len(),
            forall|k: int| next <= k < j ==> !is_normal(#[trigger] entries@[k].name@),
            j < entries@.len() ==> is_normal(entries@[j as int].name@),
        decreases entries@.len() - j,
    {
        if !is_dot_name(entries[j].name.as_slice()) {
            break;
        }
        j += 1;
    }
    proof {
        assert(next_to_create(entries@, next as int, j as int));
        assert forall|i: int| next_to_create(entries@, next as int, i) implies i == j by {
            if i < j {
                assert(!is_normal(entries@[i].name@));
            }
            if j < i {
                assert(!is_normal(entries@[j as int].name@));
            }
        }
    }
    if j < entries.len() {
        MaterializeStep::Create(j)
    } else {
        MaterializeStep::Done
    }
}

} // verus!
