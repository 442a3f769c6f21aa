//! Helpers for writing Linux directory entry syscall buffers.
//!
//! A record of `struct linux_dirent64` is `u64 d_ino`, `i64 d_off`,
//! `u16 d_reclen`, `u8 d_type`, then the nul-terminated name, padded with
//! zeros to a multiple of 8 bytes. Integers are little-endian, as on x86_64.
use vstd::prelude::*;

use std::collections::hash_map::DefaultHasher;
use std::hash::Hasher;
use vstd::std_specs::hash::DefaultHasherAdditionalSpecFns;

use crate::filesystem::{VfsDirEntry, VfsEntryKind};
use crate::path::{
    append_bytes, components, components_of, dot, dotdot, is_absolute, is_absolute_path, join,
    join_paths, parent_of, parent_path, path_eq, views, SEP,
};
use crate::sys::{DT_DIR, DT_REG};

verus! {

/// Result from writing directory entries into a caller-provided buffer.
#[derive(Debug, Clone, Copy, PartialEq, Eq, Structural)]
pub struct WriteDirentsResult {
    pub bytes_written: isize,
    pub entries_consumed: usize,
}

/// Create the synthetic `.` and `..` entries expected by directory readers.
pub fn dot_entries() -> (r: [VfsDirEntry; 2])
    ensures
        r@[0].name@ == dot(),
        r@[0].kind == VfsEntryKind::Dir,
        r@[0].ino is None,
        r@[1].name@ == dotdot(),
        r@[1].kind == VfsEntryKind::Dir,
        r@[1].ino is None,
{
    let mut d: Vec<u8> = Vec::new();
    d.push(46);
    let mut dd: Vec<u8> = Vec::new();
    dd.push(46);
    dd.push(46);
    assert(d@ =~= dot());
    assert(dd@ =~= dotdot());
    [
        VfsDirEntry { name: d, kind: VfsEntryKind::Dir, ino: None },
        VfsDirEntry { name: dd, kind: VfsEntryKind::Dir, ino: None },
    ]
}

/// `s` is the `.` and `..` pair that `dot_entries` makes.
pub open spec fn is_dot_listing(s: Seq<VfsDirEntry>) -> bool {
    &&& s.len() == 2
    &&& s[0].name@ == dot() && s[0].kind == VfsEntryKind::Dir && s[0].ino is None
    &&& s[1].name@ == dotdot() && s[1].kind == VfsEntryKind::Dir && s[1].ino is None
}

/// The `.` and `..` entries, as a vector.
pub fn dot_entry_list() -> (r: Vec<VfsDirEntry>)
    ensures
        is_dot_listing(r@),
{
    let mut d: Vec<u8> = Vec::new();
    d.push(46);
    let mut dd: Vec<u8> = Vec::new();
    dd.push(46);
    dd.push(46);
    assert(d@ =~= dot());
    assert(dd@ =~= dotdot());
    let mut r: Vec<VfsDirEntry> = Vec::new();
    r.push(VfsDirEntry { name: d, kind: VfsEntryKind::Dir, ino: None });
    r.push(VfsDirEntry { name: dd, kind: VfsEntryKind::Dir, ino: None });
    r
}

/// Law: encoding never reports more entries than it was given.
pub proof fn lemma_dirents_consumed(
    parent: Seq<u8>,
    entries: Seq<VfsDirEntry>,
    start: nat,
    count: i32,
    bytes: Seq<u8>,
    res: WriteDirentsResult,
)
    requires
        dirents_written(parent, entries, start, count, bytes, res),
    ensures
        res.entries_consumed <= entries.len(),
{
}

/// `value` rounded up to a multiple of `alignment`.
pub open spec fn round_up(value: int, alignment: int) -> int {
    ((value + alignment - 1) / alignment) * alignment
}

/// For a power of two `a`, the low bits below `a` are the remainder by `a`.
proof fn lemma_low_bits_are_mod(s: usize, a: usize)
    requires
        a > 0,
        a & ((a - 1) as usize) == 0,
    ensures
        s & ((a - 1) as usize) == s % a,
    decreases a,
{
    if a == 1 {
        assert(s & 0usize == 0usize) by (bit_vector);
    } else {
        let h = (a / 2) as usize;
        assert(a % 2 == 0 && h > 0 && h & ((h - 1) as usize) == 0) by (bit_vector)
            requires
                a > 1,
                a & ((a - 1) as usize) == 0,
                h == a / 2,
        ;
        lemma_low_bits_are_mod((s / 2) as usize, h);
        assert(s & ((a - 1) as usize) == 2 * ((s / 2) & ((h - 1) as usize)) + s % 2) by (bit_vector)
            requires
                a > 1,
                a % 2 == 0,
                h == a / 2,
        ;
        assert(a == 2 * h);
        vstd::arithmetic::div_mod::lemma_mod_breakdown(s as int, 2, h as int);
    }
}

/// Round `value` up to the next multiple of `alignment`, a power of two.
pub fn align_to(value: usize, alignment: usize) -> (r: usize)
    requires
        alignment > 0,
        alignment & ((alignment - 1) as usize) == 0,
        value + alignment - 1 <= usize::MAX,
    ensures
        r == round_up(value as int, alignment as int),
{
    let s = value + (alignment - 1);
    let m: usize = alignment - 1;
    let r = s & !m;
    proof {
        assert(s & !m == s - (s & m)) by (bit_vector);
        lemma_low_bits_are_mod(s, alignment);
        vstd::arithmetic::div_mod::lemma_fundamental_div_mod(s as int, alignment as int);
        assert((s / alignment) * alignment == alignment * (s / alignment)) by (nonlinear_arith);
    }
    r
}

/// Convert a VFS entry kind into the Linux `d_type` byte.
pub open spec fn dirent_type_of(kind: VfsEntryKind) -> u8 {
    match kind {
        VfsEntryKind::File => DT_REG,
        VfsEntryKind::Dir => DT_DIR,
    }
}

pub fn dirent_type(kind: VfsEntryKind) -> (r: u8)
    ensures
        r == dirent_type_of(kind),
{
    match kind {
        VfsEntryKind::File => DT_REG,
        VfsEntryKind::Dir => DT_DIR,
    }
}

/// The path of a listed entry: the directory itself for `.`, its parent
/// (the root when it has none) for `..`, the joined path otherwise.
pub open spec fn entry_path_of(parent: Seq<u8>, name: Seq<u8>) -> Seq<u8> {
    if name == dot() {
        parent
    } else if name == dotdot() {
        match parent_path(parent) {
            Some(p) => p,
            None => seq![SEP],
        }
    } else {
        join(parent, name)
    }
}

pub fn entry_path(parent_path: &[u8], name: &[u8]) -> (r: Vec<u8>)
    ensures
        r@ == entry_path_of(parent_path@, name@),
{
    if name.len() == 1 && name[0] == 46 {
        assert(name@ =~= dot());
        return vstd::slice::slice_to_vec(parent_path);
    }
    assert(name@ != dot()) by {
        if name@.len() == 1 {
            assert(name@[0] != dot()[0]);
        }
    }
    if name.len() == 2 && name[0] == 46 && name[1] == 46 {
        assert(name@ =~= dotdot());
        return match parent_of(parent_path) {
            Some(p) => p,
            None => {
                let mut root: Vec<u8> = Vec::new();
                root.push(SEP);
                assert(root@ =~= seq![SEP]);
                root
            },
        };
    }
    assert(name@ != dotdot()) by {
        if name@.len() == 2 {
            assert(name@[0] != dotdot()[0] || name@[1] != dotdot()[1]);
        }
    }
    join_paths(parent_path, name)
}

/// What is hashed for a path: whether it is absolute, then each of its
/// components, so that paths equal as `std::path::Path` compares them
/// (`/a//b/` and `/a/./b`, for instance) are hashed alike.
pub open spec fn path_hash_input(path: Seq<u8>) -> Seq<Seq<u8>> {
    seq![seq![if is_absolute(path) { SEP } else { 0u8 }]] + components(path)
}

/// The number that names a synthetic entry: the `DefaultHasher` hash of
/// its path, taken by components. It is the same for equal paths within a
/// process.
pub open spec fn path_inode(path: Seq<u8>) -> u64 {
    DefaultHasher::spec_finish(path_hash_input(path))
}

/// Generate a stable-enough inode value for synthetic directory entries.
///
/// These inode numbers only need to be consistent within this process; they are
/// not host filesystem inode numbers.
pub fn inode_for_path(path: &[u8]) -> (r: u64)
    ensures
        r == path_inode(path@),
{
    let mut hasher = DefaultHasher::new();
    let mut root: Vec<u8> = Vec::new();
    root.push(if is_absolute_path(path) { SEP } else { 0u8 });
    hasher.write(root.as_slice());
    let comps = components_of(path);
    let ghost c = components(path@);
    let mut i: usize = 0;
    assert(hasher@ =~= path_hash_input(path@).subrange(0, 1));
    while i < comps.len()
        invariant
            i <= comps@.len(),
            views(comps@) == c,
            c == components(path@),
            hasher@ == path_hash_input(path@).subrange(0, i + 1),
        decreases comps@.len() - i,
    {
        hasher.write(comps[i].as_slice());
        assert(comps@[i as int]@ == c[i as int]);
        assert(hasher@ =~= path_hash_input(path@).subrange(0, i + 2));
        i += 1;
    }
    assert(hasher@ =~= path_hash_input(path@));
    hasher.finish()
}

/// Law: paths that are equal as `std::path::Path` compares them (same
/// root, same components) get the same inode number.
pub proof fn law_equal_paths_share_inode(a: Seq<u8>, b: Seq<u8>)
    requires
        path_eq(a, b),
    ensures
        path_inode(a) == path_inode(b),
{
}

/// The little-endian bytes of the low `n` bytes of `x`.
pub open spec fn le_bytes(x: u64, n: nat) -> Seq<u8>
    decreases n,
{
    if n == 0 {
        Seq::empty()
    } else {
        le_bytes(x, (n - 1) as nat).push(((x >> (8 * (n - 1) as u64)) & 0xff) as u8)
    }
}

/// The inode number a record carries for an entry.
pub open spec fn entry_ino(parent: Seq<u8>, e: VfsDirEntry) -> u64 {
    match e.ino {
        Some(i) => i,
        None => path_inode(entry_path_of(parent, e.name@)),
    }
}

/// The length of the record for a name of `n` bytes.
pub open spec fn record_len(n: nat) -> int {
    round_up(19 + n as int + 1, 8int)
}

/// One record.
pub open spec fn record(ino: u64, off: u64, name: Seq<u8>, kind: VfsEntryKind) -> Seq<u8> {
    let reclen = record_len(name.len());
    le_bytes(ino, 8) + le_bytes(off, 8) + le_bytes(reclen as u64, 2) + seq![dirent_type_of(kind)]
        + name + seq![0u8] + Seq::new((reclen - 20 - name.len()) as nat, |i: int| 0u8)
}

/// The records of the first `k` entries, numbered on from `start`.
pub open spec fn records(parent: Seq<u8>, entries: Seq<VfsDirEntry>, start: nat, k: nat) -> Seq<u8>
    decreases k,
{
    if k == 0 {
        Seq::empty()
    } else {
        let e = entries[k - 1];
        records(parent, entries, start, (k - 1) as nat) + record(
            entry_ino(parent, e),
            (start + k) as u64,
            e.name@,
            e.kind,
        )
    }
}

/// The total length of the records of the first `k` entries.
pub open spec fn records_len(entries: Seq<VfsDirEntry>, k: nat) -> int
    decreases k,
{
    if k == 0 {
        0
    } else {
        records_len(entries, (k - 1) as nat) + record_len(entries[k - 1].name@.len())
    }
}

/// How many entries fit in `count` bytes: the leading entries whose records
/// all fit, stopping at the first that does not.
pub open spec fn fitting(entries: Seq<VfsDirEntry>, count: int, k: nat) -> bool {
    &&& k <= entries.len()
    &&& records_len(entries, k) <= count
    &&& k < entries.len() ==> records_len(entries, k + 1) > count
}

/// Law: a record is 8-byte aligned: its length is a multiple of 8, and
/// leaves room for the header, the name and its nul, with less than 8
/// bytes of padding.
pub proof fn lemma_record_len(n: nat)
    ensures
        20 + n <= record_len(n) < 28 + n,
        record_len(n) % 8 == 0,
{
    let v = 20 + n;
    assert(((v + 7) / 8) * 8 <= v + 7) by (nonlinear_arith);
    assert(((v + 7) / 8) * 8 > v - 1) by (nonlinear_arith);
    assert((((v + 7) / 8) * 8) % 8 == 0) by (nonlinear_arith);
}

proof fn lemma_le_bytes_len(x: u64, n: nat)
    ensures
        le_bytes(x, n).len() == n,
    decreases n,
{
    if n > 0 {
        lemma_le_bytes_len(x, (n - 1) as nat);
    }
}

/// Law: a record is exactly as long as the length it carries, and the
/// records of any leading entries fill a multiple of 8 bytes.
pub proof fn law_records_aligned(
    parent: Seq<u8>,
    entries: Seq<VfsDirEntry>,
    start: nat,
    k: nat,
)
    requires
        k <= entries.len(),
    ensures
        records(parent, entries, start, k).len() == records_len(entries, k),
        records_len(entries, k) % 8 == 0,
    decreases k,
{
    if k > 0 {
        law_records_aligned(parent, entries, start, (k - 1) as nat);
        let e = entries[k - 1];
        let n = e.name@.len();
        lemma_record_len(n);
        lemma_le_bytes_len(entry_ino(parent, e), 8);
        lemma_le_bytes_len((start + k) as u64, 8);
        lemma_le_bytes_len(record_len(n) as u64, 2);
        let a = records_len(entries, (k - 1) as nat);
        let b = record_len(n);
        assert((a + b) % 8 == 0) by (nonlinear_arith)
            requires
                a % 8 == 0,
                b % 8 == 0,
        ;
    }
}

fn push_le(out: &mut Vec<u8>, x: u64, n: usize)
    requires
        n <= 8,
    ensures
        final(out)@ == old(out)@ + le_bytes(x, n as nat),
{
    let mut i: usize = 0;
    while i < n
        invariant
            i <= n <= 8,
            out@ == old(out)@ + le_bytes(x, i as nat),
        decreases n - i,
    {
        let b = ((x >> (8 * i as u64)) & 0xff) as u8;
        out.push(b);
        assert(le_bytes(x, (i + 1) as nat) == le_bytes(x, i as nat).push(
            ((x >> (8 * i as u64)) & 0xff) as u8,
        ));
        assert(out@ =~= old(out)@ + le_bytes(x, (i + 1) as nat));
        i += 1;
    }
}

/// Appends one record.
fn push_record(out: &mut Vec<u8>, ino: u64, off: u64, name: &[u8], kind: VfsEntryKind, reclen: usize)
    requires
        reclen == record_len(name@.len()),
    ensures
        final(out)@ == old(out)@ + record(ino, off, name@, kind),
{
    proof {
        lemma_record_len(name@.len());
    }
    push_le(out, ino, 8);
    push_le(out, off, 8);
    push_le(out, reclen as u64, 2);
    out.push(dirent_type(kind));
    append_bytes(out, name);
    out.push(0);
    let pad = reclen - (19 + name.len() + 1);
    let mut j: usize = 0;
    let ghost mid = out@;
    while j < pad
        invariant
            j <= pad,
            out@ == mid + Seq::new(j as nat, |i: int| 0u8),
        decreases pad - j,
    {
        out.push(0);
        assert(out@ =~= mid + Seq::new((j + 1) as nat, |i: int| 0u8));
        j += 1;
    }
    assert(out@ =~= old(out)@ + record(ino, off, name@, kind));
}

/// What encoding `entries` into a buffer of `count` bytes gives: the
/// records of the leading entries that fit, numbered on from `start`; -1 and
/// no entry when `count` is not positive or when not even the first record
/// fits.
pub open spec fn dirents_written(
    parent: Seq<u8>,
    entries: Seq<VfsDirEntry>,
    start: nat,
    count: i32,
    bytes: Seq<u8>,
    res: WriteDirentsResult,
) -> bool {
    if count <= 0 {
        res == (WriteDirentsResult { bytes_written: -1isize, entries_consumed: 0usize }) && bytes
            == Seq::<u8>::empty()
    } else {
        exists|k: nat|
            fitting(entries, count as int, k) && if k == 0 && entries.len() > 0 {
                res == (WriteDirentsResult { bytes_written: -1isize, entries_consumed: 0usize })
            } else {
                &&& res == WriteDirentsResult {
                    bytes_written: records_len(entries, k) as isize,
                    entries_consumed: k as usize,
                }
                &&& bytes == records(parent, entries, start, k)
            }
    }
}

/// Write Linux `struct linux_dirent64` records for a caller-provided buffer
/// of `count` bytes: the records of the leading entries that fit, the `i`-th
/// one with offset `start_offset + i + 1`, for the caller to copy into its
/// buffer. The result counts the bytes and entries, so callers can advance
/// their per-fd directory offset; it reports -1 and no entry when `count` is
/// not positive or when not even the first record fits.
pub fn write_dirents64(
    parent_path: &[u8],
    entries: &[VfsDirEntry],
    start_offset: usize,
    count: i32,
) -> (r: (Vec<u8>, WriteDirentsResult))
    requires
        start_offset + entries@.len() < usize::MAX,
    ensures
        dirents_written(parent_path@, entries@, start_offset as nat, count, r.0@, r.1),
{
    let mut out: Vec<u8> = Vec::new();
    if count <= 0 {
        return (out, WriteDirentsResult { bytes_written: -1, entries_consumed: 0 });
    }
    let count_bytes = count as usize;
    let mut written: usize = 0;
    let mut consumed: usize = 0;
    while consumed < entries.len()
        invariant
            consumed <= entries@.len(),
            start_offset + entries@.len() < usize::MAX,
            count_bytes == count as int,
            count > 0,
            written == records_len(entries@, consumed as nat),
            written <= count_bytes,
            out@ == records(parent_path@, entries@, start_offset as nat, consumed as nat),
        ensures
            fitting(entries@, count as int, consumed as nat),
            written == records_len(entries@, consumed as nat),
            out@ == records(parent_path@, entries@, start_offset as nat, consumed as nat),
        decreases entries@.len() - consumed,
    {
        let entry = &entries[consumed];
        let name = entry.name.as_slice();
        proof {
            lemma_record_len(name@.len());
        }
        if name.len() > count_bytes - written {
            // its record, longer than the name, cannot fit either
            break;
        }
        assert(8usize & ((8usize - 1) as usize) == 0usize) by (bit_vector);
        let reclen = align_to(19 + name.len() + 1, 8);
        if written + reclen > count_bytes {
            break;
        }
        let ino = match entry.ino {
            Some(i) => i,
            None => {
                let p = entry_path(parent_path, name);
                inode_for_path(p.as_slice())
            },
        };
        let next_offset = (start_offset + consumed + 1) as u64;
        let ghost before = out@;
        push_record(&mut out, ino, next_offset, name, entry.kind, reclen);
        proof {
            let e = entries@[consumed as int];
            assert(e.name@ == name@);
            assert(entry_ino(parent_path@, e) == ino);
            assert(records(parent_path@, entries@, start_offset as nat, (consumed + 1) as nat)
                == records(parent_path@, entries@, start_offset as nat, consumed as nat) + record(
                entry_ino(parent_path@, e),
                (start_offset + consumed + 1) as u64,
                e.name@,
                e.kind,
            ));
        }
        written = written + reclen;
        consumed = consumed + 1;
    }
    if consumed == 0 && entries.len() > 0 {
        return (out, WriteDirentsResult { bytes_written: -1, entries_consumed: 0 });
    }
    (out, WriteDirentsResult { bytes_written: written as isize, entries_consumed: consumed })
}

} // verus!
