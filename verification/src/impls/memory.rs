//! In-memory filesystem with a Rust-owned namespace and kernel-backed files.
//!
//! The namespace (nodes, directory entries, modes, link counts) lives here.
//! Regular-file contents live in the kernel objects that a `NodeBacking`
//! provides, so that callers use ordinary kernel operations on returned fds.
use vstd::prelude::*;

use std::collections::HashMap;

use super::dir_entries::{entry_map, listing_insert, listing_remove, sorted, DirEntries};
use crate::filesystem::{
    zero_stat, LowLevelFS, NodeBacking, OpenResult, Stat, VfsDirEntry, VfsEntryKind,
};
use crate::path::{
    components, components_of, dot, dotdot, is_absolute, is_absolute_path, is_dot_component,
    is_dotdot_component, is_normal, is_normal_component, is_root, is_root_path, path_eq,
    lemma_components_well_formed, SEP,
    path_starts_with, paths_equal, starts_with, views,
};
use crate::sys::{O_CREAT, O_DIRECTORY, O_EXCL, O_NOFOLLOW, S_IFDIR, S_IFREG};

verus! {

broadcast use vstd::std_specs::hash::group_hash_axioms;

pub type NodeId = u64;

/// What a node is, as the specifications see it.
pub enum KindView {
    File { backing_fd: i32 },
    Dir { listing: Seq<(Seq<u8>, u64)>, placeholder_fd: i32 },
}

/// A node, as the specifications see it.
pub struct NodeView {
    pub parent: Option<u64>,
    pub mode: u32,
    pub links: u64,
    /// How many opened handles keep the node alive.
    pub handles: u64,
    pub kind: KindView,
}

/// The namespace of a `MemoryFS`.
pub struct FsView {
    pub root: u64,
    pub next_id: u64,
    pub nodes: Map<u64, NodeView>,
}

/// A node that is in the namespace (not unlinked).
pub open spec fn present(v: FsView, id: u64) -> bool {
    v.nodes.contains_key(id) && v.nodes[id].links > 0
}

pub open spec fn is_dir_view(n: NodeView) -> bool {
    n.kind is Dir
}

pub open spec fn is_dir_node(v: FsView, id: u64) -> bool {
    v.nodes.contains_key(id) && is_dir_view(v.nodes[id])
}

pub open spec fn listing_of(n: NodeView) -> Seq<(Seq<u8>, u64)> {
    match n.kind {
        KindView::Dir { listing, .. } => listing,
        KindView::File { .. } => Seq::empty(),
    }
}

pub open spec fn backing_of(n: NodeView) -> i32 {
    match n.kind {
        KindView::Dir { placeholder_fd, .. } => placeholder_fd,
        KindView::File { backing_fd } => backing_fd,
    }
}

pub open spec fn kind_of(n: NodeView) -> VfsEntryKind {
    match n.kind {
        KindView::Dir { .. } => VfsEntryKind::Dir,
        KindView::File { .. } => VfsEntryKind::File,
    }
}

/// The node that `name` names in directory `dir`.
pub open spec fn child_of(v: FsView, dir: u64, name: Seq<u8>) -> Option<u64> {
    let m = entry_map(listing_of(v.nodes[dir]));
    if is_dir_node(v, dir) && m.contains_key(name) && present(v, m[name]) {
        Some(m[name])
    } else {
        None
    }
}

/// Walks components from the root; `.` and `..` are passed over.
pub open spec fn walk(v: FsView, comps: Seq<Seq<u8>>) -> Option<u64>
    decreases comps.len(),
{
    if comps.len() == 0 {
        if present(v, v.root) {
            Some(v.root)
        } else {
            None
        }
    } else {
        match walk(v, comps.drop_last()) {
            None => None,
            Some(d) => if is_normal(comps.last()) {
                child_of(v, d, comps.last())
            } else {
                Some(d)
            },
        }
    }
}

/// Walks components from `start`: `.` stays, `..` goes to the parent node.
pub open spec fn walk_rel(v: FsView, start: u64, comps: Seq<Seq<u8>>) -> Option<u64>
    decreases comps.len(),
{
    if comps.len() == 0 {
        Some(start)
    } else {
        match walk_rel(v, start, comps.drop_last()) {
            None => None,
            Some(d) => {
                let c = comps.last();
                if c == dot() {
                    Some(d)
                } else if c == dotdot() {
                    match v.nodes[d].parent {
                        Some(p) => if present(v, p) {
                            Some(p)
                        } else {
                            None
                        },
                        None => None,
                    }
                } else {
                    child_of(v, d, c)
                }
            },
        }
    }
}

/// The node an absolute path names.
pub open spec fn resolve(v: FsView, p: Seq<u8>) -> Option<u64> {
    walk(v, components(p))
}

/// The directory node and the name under which `p` would be found.
pub open spec fn resolve_parent(v: FsView, p: Seq<u8>) -> Option<(u64, Seq<u8>)> {
    let c = components(p);
    if c.len() > 0 && is_normal(c.last()) {
        match walk(v, c.drop_last()) {
            Some(d) => Some((d, c.last())),
            None => None,
        }
    } else {
        None
    }
}

/// The node that `p` names relative to the opened node `start`.
pub open spec fn resolve_from(v: FsView, start: Option<u64>, p: Seq<u8>) -> Option<u64> {
    match start {
        None => resolve(v, p),
        Some(s) => if is_absolute(p) {
            None
        } else {
            walk_rel(v, s, components(p))
        },
    }
}

/// The directory and name for creating `p`, from the root or from `start`.
pub open spec fn parent_from(v: FsView, start: Option<u64>, p: Seq<u8>) -> Option<(u64, Seq<u8>)> {
    match start {
        None => resolve_parent(v, p),
        Some(s) => {
            let c = components(p);
            if !is_absolute(p) && c.len() > 0 && is_normal(c.last()) {
                match walk_rel(v, s, c.drop_last()) {
                    Some(d) => Some((d, c.last())),
                    None => None,
                }
            } else {
                None
            }
        },
    }
}

pub open spec fn with_listing(n: NodeView, l: Seq<(Seq<u8>, u64)>) -> NodeView {
    NodeView { kind: KindView::Dir { listing: l, placeholder_fd: backing_of(n) }, ..n }
}

/// Binds `name` to `id` in directory `d`.
pub open spec fn bind(nodes: Map<u64, NodeView>, d: u64, name: Seq<u8>, id: u64) -> Map<
    u64,
    NodeView,
> {
    nodes.insert(d, with_listing(nodes[d], listing_insert(listing_of(nodes[d]), name, id)))
}

/// Removes the binding of `name` in directory `d`.
pub open spec fn unbind(nodes: Map<u64, NodeView>, d: u64, name: Seq<u8>) -> Map<u64, NodeView> {
    nodes.insert(d, with_listing(nodes[d], listing_remove(listing_of(nodes[d]), name)))
}

/// A node leaves the namespace: it is dropped, unless opened handles still
/// hold it, in which case it stays without links and without parent.
pub open spec fn detach(nodes: Map<u64, NodeView>, id: u64) -> Map<u64, NodeView> {
    if nodes[id].handles == 0 {
        nodes.remove(id)
    } else {
        nodes.insert(id, NodeView { parent: None, links: 0, ..nodes[id] })
    }
}

/// A new node under `parent`.
pub open spec fn fresh_node(parent: u64, mode: u32, kind: VfsEntryKind, fd: i32) -> NodeView {
    NodeView {
        parent: Some(parent),
        mode: mode & 0o7777,
        links: 1,
        handles: 0,
        kind: match kind {
            VfsEntryKind::File => KindView::File { backing_fd: fd },
            VfsEntryKind::Dir => KindView::Dir { listing: Seq::empty(), placeholder_fd: fd },
        },
    }
}

/// Whether `name` can be created in `parent`.
pub open spec fn can_create_in(v: FsView, parent: u64, name: Seq<u8>) -> bool {
    is_dir_node(v, parent) && !entry_map(listing_of(v.nodes[parent])).contains_key(name)
        && v.next_id < u64::MAX
}

/// What creating `name` in `parent` does, when the backing answered `b` to
/// the request for a new object: nothing is asked and nothing changes when
/// the name cannot be created; otherwise the id is used up, and the new node,
/// backed by `b`, is bound under `name` exactly when `b` is not negative.
pub open spec fn create_outcome(
    pre: FsView,
    post: FsView,
    parent: u64,
    name: Seq<u8>,
    kind: VfsEntryKind,
    mode: u32,
    b: i32,
    r: Option<u64>,
) -> bool {
    if !can_create_in(pre, parent, name) {
        r is None && post == pre
    } else {
        &&& post.root == pre.root
        &&& post.next_id == pre.next_id + 1
        &&& if b < 0 {
            r is None && post.nodes == pre.nodes
        } else {
            &&& r == Some(pre.next_id)
            &&& post.nodes == bind(
                pre.nodes.insert(pre.next_id, fresh_node(parent, mode, kind, b)),
                parent,
                name,
                pre.next_id,
            )
        }
    }
}

/// Whether creating path `p` asks the backing for a new object.
pub open spec fn asks_create(v: FsView, start: Option<u64>, p: Seq<u8>) -> bool {
    match parent_from(v, start, p) {
        None => false,
        Some((d, name)) => can_create_in(v, d, name),
    }
}

/// What creating path `p` does (from the root, or from an opened node), when
/// the backing answered `b`.
pub open spec fn create_path_outcome(
    pre: FsView,
    post: FsView,
    start: Option<u64>,
    p: Seq<u8>,
    kind: VfsEntryKind,
    mode: u32,
    b: i32,
    r: Option<u64>,
) -> bool {
    match parent_from(pre, start, p) {
        None => r is None && post == pre,
        Some((d, name)) => create_outcome(pre, post, d, name, kind, mode, b, r),
    }
}

/// The backing calls of creating path `p`: one request for an object of
/// `kind`, answered `b`, when the name can be created; none otherwise.
pub open spec fn create_backing_steps<B: NodeBacking>(
    v: FsView,
    bpre: B,
    bpost: B,
    start: Option<u64>,
    p: Seq<u8>,
    kind: VfsEntryKind,
    b: i32,
) -> bool {
    if asks_create(v, start, p) {
        bpre.spec_create(&bpost, kind, b)
    } else {
        bpost == bpre
    }
}

/// Which way an `open` goes before anything is created.
pub enum OpenStep {
    Refuse,
    Use(u64),
    Create,
}

pub open spec fn excl_create(flags: i32) -> bool {
    flags & (O_CREAT | O_EXCL) == (O_CREAT | O_EXCL)
}

pub open spec fn open_step(v: FsView, start: Option<u64>, p: Seq<u8>, flags: i32) -> OpenStep {
    match resolve_from(v, start, p) {
        Some(id) => if excl_create(flags) {
            OpenStep::Refuse
        } else {
            OpenStep::Use(id)
        },
        None => if flags & O_CREAT != 0 {
            OpenStep::Create
        } else {
            OpenStep::Refuse
        },
    }
}

/// Whether opening node `id` asks the backing for a description: not when a
/// directory was asked for and the node is none.
pub open spec fn opens_backing(v: FsView, id: u64, flags: i32) -> bool {
    !(flags & O_DIRECTORY != 0 && !is_dir_node(v, id))
}

/// The outcome of opening node `id` when the backing answered `o`: refused
/// when a directory was asked for and the node is none; -1 when the backing
/// failed; otherwise the descriptor `o`, with the node.
pub open spec fn opened(v: FsView, id: u64, flags: i32, o: i32, r: (i32, Option<u64>)) -> bool {
    if !opens_backing(v, id, flags) {
        r == (-1i32, None::<u64>)
    } else if o < 0 {
        r == (-1i32, None::<u64>)
    } else {
        r == (o, Some(id))
    }
}

/// What an `open` of `p` does, from the root or from an opened node, when
/// the backing answered `b` to the creation (if one was asked for) and `o`
/// to the open (if one was asked for).
pub open spec fn open_outcome(
    pre: FsView,
    post: FsView,
    start: Option<u64>,
    p: Seq<u8>,
    flags: i32,
    mode: u32,
    b: i32,
    o: i32,
    r: (i32, Option<u64>),
) -> bool {
    match open_step(pre, start, p, flags) {
        OpenStep::Refuse => r == (-1i32, None::<u64>) && post == pre,
        OpenStep::Use(id) => post == pre && opened(pre, id, flags, o, r),
        OpenStep::Create => exists|c: Option<u64>|
            create_path_outcome(pre, post, start, p, VfsEntryKind::File, mode, b, c) && match c {
                None => r == (-1i32, None::<u64>),
                Some(id) => opened(post, id, flags, o, r),
            },
    }
}

/// The backing calls of an `open` of `p`: a fresh description of the node's
/// own backing object, with the lookup flags dropped, for a node that is
/// found; for a file that is created, the request for its object and then,
/// when that succeeded, a description of that new object.
pub open spec fn open_backing_steps<B: NodeBacking>(
    v: FsView,
    bpre: B,
    bpost: B,
    start: Option<u64>,
    p: Seq<u8>,
    flags: i32,
    b: i32,
    o: i32,
) -> bool {
    match open_step(v, start, p, flags) {
        OpenStep::Refuse => bpost == bpre,
        OpenStep::Use(id) => if opens_backing(v, id, flags) {
            bpre.spec_open(&bpost, backing_of(v.nodes[id]), backing_flags(flags), o)
        } else {
            bpost == bpre
        },
        OpenStep::Create => if !asks_create(v, start, p) {
            bpost == bpre
        } else if b < 0 || flags & O_DIRECTORY != 0 {
            bpre.spec_create(&bpost, VfsEntryKind::File, b)
        } else {
            exists|mid: B|
                bpre.spec_create(&mid, VfsEntryKind::File, b) && mid.spec_open(
                    &bpost,
                    b,
                    backing_flags(flags),
                    o,
                )
        },
    }
}

/// Whether `kind` names what node `n` is, a directory only when empty.
pub open spec fn kind_matches(n: NodeView, kind: VfsEntryKind) -> bool {
    match n.kind {
        KindView::File { .. } => kind == VfsEntryKind::File,
        KindView::Dir { listing, .. } => kind == VfsEntryKind::Dir && listing.len() == 0,
    }
}

/// What `unlink` (`File`) or `rmdir` (`Dir`) of `p` returns, and the nodes after it.
pub open spec fn remove_outcome(v: FsView, p: Seq<u8>, kind: VfsEntryKind) -> (i32, Map<u64, NodeView>) {
    if is_root(p) {
        (-1i32, v.nodes)
    } else {
        match resolve_parent(v, p) {
            None => (-1i32, v.nodes),
            Some((d, name)) => {
                let m = entry_map(listing_of(v.nodes[d]));
                if !is_dir_node(v, d) || !m.contains_key(name) {
                    (-1i32, v.nodes)
                } else if !present(v, m[name]) {
                    (-1i32, unbind(v.nodes, d, name))
                } else if !kind_matches(v.nodes[m[name]], kind) {
                    (-1i32, v.nodes)
                } else {
                    (0i32, detach(unbind(v.nodes, d, name), m[name]))
                }
            },
        }
    }
}

/// The node that a successful `unlink` (`File`) or `rmdir` (`Dir`) of `p`
/// takes out of the namespace.
pub open spec fn removed_node(v: FsView, p: Seq<u8>, kind: VfsEntryKind) -> Option<u64> {
    if is_root(p) {
        None
    } else {
        match resolve_parent(v, p) {
            None => None,
            Some((d, name)) => {
                let m = entry_map(listing_of(v.nodes[d]));
                if is_dir_node(v, d) && m.contains_key(name) && present(v, m[name]) && kind_matches(
                    v.nodes[m[name]],
                    kind,
                ) {
                    Some(m[name])
                } else {
                    None
                }
            },
        }
    }
}

/// The backing call of node `id` leaving the namespace: its object is
/// released when no handle holds the node (once, as the node goes away);
/// otherwise nothing is asked yet.
pub open spec fn detach_release<B: NodeBacking>(nodes: Map<u64, NodeView>, bpre: B, bpost: B, id: u64) -> bool {
    if nodes[id].handles == 0 {
        bpre.spec_release(&bpost, backing_of(nodes[id]))
    } else {
        bpost == bpre
    }
}

/// The backing calls of an `unlink` or `rmdir` of `p`.
pub open spec fn remove_backing_step<B: NodeBacking>(
    v: FsView,
    bpre: B,
    bpost: B,
    p: Seq<u8>,
    kind: VfsEntryKind,
) -> bool {
    match removed_node(v, p, kind) {
        Some(id) => detach_release(v.nodes, bpre, bpost, id),
        None => bpost == bpre,
    }
}

/// The backing call of giving back a handle on node `id`: the object of a
/// node without links is released with its last handle.
pub open spec fn release_backing_step<B: NodeBacking>(nodes: Map<u64, NodeView>, bpre: B, bpost: B, id: u64) -> bool {
    if nodes.contains_key(id) && nodes[id].handles == 1 && nodes[id].links == 0 {
        bpre.spec_release(&bpost, backing_of(nodes[id]))
    } else {
        bpost == bpre
    }
}

/// Whether a node of the kind of `src` may take the place of `dst`: files
/// replace files, directories replace empty directories.
pub open spec fn can_replace(src: NodeView, dst: NodeView) -> bool {
    match (src.kind, dst.kind) {
        (KindView::File { .. }, KindView::File { .. }) => true,
        (KindView::Dir { .. }, KindView::Dir { listing, .. }) => listing.len() == 0,
        _ => false,
    }
}

/// Moving entry `on` to `nn` within directory `d`; a replaced node leaves first.
pub open spec fn same_dir_move(
    n: Map<u64, NodeView>,
    d: u64,
    on: Seq<u8>,
    nn: Seq<u8>,
    oid: u64,
    rid: Option<u64>,
) -> Map<u64, NodeView> {
    let n1 = match rid {
        Some(r) => detach(n, r),
        None => n,
    };
    bind(unbind(n1, d, on), d, nn, oid)
}

/// Moving entry `on` of `op` to `nn` of `np`; a replaced node leaves and the
/// moved node gets `np` as its parent.
pub open spec fn cross_move(
    n: Map<u64, NodeView>,
    op: u64,
    on: Seq<u8>,
    np: u64,
    nn: Seq<u8>,
    oid: u64,
    rid: Option<u64>,
) -> Map<u64, NodeView> {
    let n1 = bind(unbind(n, op, on), np, nn, oid);
    let n2 = match rid {
        Some(r) => detach(n1, r),
        None => n1,
    };
    n2.insert(oid, NodeView { parent: Some(np), ..n2[oid] })
}

/// What `rename(old, new)` returns, and the nodes after it.
pub open spec fn rename_outcome(v: FsView, from: Seq<u8>, to: Seq<u8>) -> (i32, Map<u64, NodeView>) {
    let n = v.nodes;
    if is_root(from) || is_root(to) {
        (-1i32, n)
    } else if path_eq(from, to) {
        (0i32, n)
    } else {
        match (resolve_parent(v, from), resolve_parent(v, to)) {
            (Some((op, on)), Some((np, nn))) => {
                let om = entry_map(listing_of(n[op]));
                let nm = entry_map(listing_of(n[np]));
                if !is_dir_node(v, op) || !is_dir_node(v, np) || !om.contains_key(on) {
                    (-1i32, n)
                } else {
                    let oid = om[on];
                    if !present(v, oid) || (is_dir_view(n[oid]) && starts_with(to, from)) {
                        (-1i32, n)
                    } else if nm.contains_key(nn) && nm[nn] == oid {
                        (0i32, n)
                    } else if nm.contains_key(nn) && (!present(v, nm[nn]) || !can_replace(
                        n[oid],
                        n[nm[nn]],
                    )) {
                        (-1i32, n)
                    } else {
                        let rid = if nm.contains_key(nn) {
                            Some(nm[nn])
                        } else {
                            None
                        };
                        if op == np {
                            (0i32, same_dir_move(n, op, on, nn, oid, rid))
                        } else {
                            (0i32, cross_move(n, op, on, np, nn, oid, rid))
                        }
                    }
                }
            },
            _ => (-1i32, n),
        }
    }
}

/// The node that a successful `rename(from, to)` replaces, if any.
pub open spec fn rename_replaced(v: FsView, from: Seq<u8>, to: Seq<u8>) -> Option<u64> {
    let n = v.nodes;
    if is_root(from) || is_root(to) || path_eq(from, to) {
        None
    } else {
        match (resolve_parent(v, from), resolve_parent(v, to)) {
            (Some((op, on)), Some((np, nn))) => {
                let om = entry_map(listing_of(n[op]));
                let nm = entry_map(listing_of(n[np]));
                if !is_dir_node(v, op) || !is_dir_node(v, np) || !om.contains_key(on) {
                    None
                } else {
                    let oid = om[on];
                    if !present(v, oid) || (is_dir_view(n[oid]) && starts_with(to, from)) {
                        None
                    } else if !nm.contains_key(nn) || nm[nn] == oid {
                        None
                    } else if !present(v, nm[nn]) || !can_replace(n[oid], n[nm[nn]]) {
                        None
                    } else {
                        Some(nm[nn])
                    }
                }
            },
            _ => None,
        }
    }
}

/// The backing calls of `rename(from, to)`: those of the replaced node
/// leaving the namespace, if one is replaced.
pub open spec fn rename_backing_step<B: NodeBacking>(v: FsView, bpre: B, bpost: B, from: Seq<u8>, to: Seq<u8>) -> bool {
    match rename_replaced(v, from, to) {
        Some(id) => detach_release(v.nodes, bpre, bpost, id),
        None => bpost == bpre,
    }
}


/// The nodes after one more handle holds node `id`.
pub open spec fn with_handle(nodes: Map<u64, NodeView>, id: u64) -> Map<u64, NodeView> {
    nodes.insert(id, NodeView { handles: (nodes[id].handles + 1) as u64, ..nodes[id] })
}

/// What taking a handle on the node an open reached does: a handle is
/// taken unless the node's handle count is saturated.
pub open spec fn handle_outcome(mid: FsView, new: FsView, node: Option<u64>, opened: Option<u64>) -> bool {
    match node {
        None => opened is None && new == mid,
        Some(id) => if mid.nodes[id].handles < u64::MAX {
            opened == Some(id) && new == FsView { nodes: with_handle(mid.nodes, id), ..mid }
        } else {
            opened is None && new == mid
        },
    }
}

/// The number of entries of a listing that name directories in the namespace.
pub open spec fn count_dirs(v: FsView, l: Seq<(Seq<u8>, u64)>) -> nat
    decreases l.len(),
{
    if l.len() == 0 {
        0
    } else {
        count_dirs(v, l.drop_last()) + if present(v, l.last().1) && is_dir_view(
            v.nodes[l.last().1],
        ) {
            1nat
        } else {
            0nat
        }
    }
}

/// The link count that `stat` reports: none for an unlinked node, one for a
/// file, two plus the child directories for a directory.
pub open spec fn nlink_of(v: FsView, id: u64) -> u64 {
    let n = v.nodes[id];
    if n.links == 0 {
        0
    } else {
        match n.kind {
            KindView::File { .. } => 1,
            KindView::Dir { listing, .. } => if 2 + count_dirs(v, listing) <= u64::MAX {
                (2 + count_dirs(v, listing)) as u64
            } else {
                u64::MAX
            },
        }
    }
}

/// The file type bits and permission bits of a node.
pub open spec fn mode_bits(n: NodeView) -> u32 {
    (if is_dir_view(n) {
        S_IFDIR
    } else {
        S_IFREG
    }) | n.mode
}

/// The record `stat` gives for node `id`: the kernel's record of the backing
/// object for a file (a zero record for a directory) with the mode, inode
/// number, link count and block size of the node.
pub open spec fn stat_of(v: FsView, id: u64, s: Stat) -> bool {
    &&& s.st_mode == mode_bits(v.nodes[id])
    &&& s.st_ino == id
    &&& s.st_nlink == nlink_of(v, id)
    &&& s.st_blksize == 4096
    &&& is_dir_view(v.nodes[id]) ==> s == (Stat {
        st_mode: mode_bits(v.nodes[id]),
        st_ino: id,
        st_nlink: nlink_of(v, id),
        st_blksize: 4096,
        ..zero_stat()
    })
}

/// The backing call of `chmod` of node `id`: the permission bits of a
/// file's own backing object are changed; a directory's are left alone.
pub open spec fn chmod_backing_step<B: NodeBacking>(
    v: FsView,
    bpre: B,
    bpost: B,
    id: u64,
    mode: u32,
) -> bool {
    if is_dir_view(v.nodes[id]) {
        bpost == bpre
    } else {
        bpre.spec_chmod(&bpost, backing_of(v.nodes[id]), mode)
    }
}

/// The record `stat` gives for file node `id` when the kernel's record of
/// its backing object is `k`: `k`, with the mode, inode number, link count
/// and block size of the node.
pub open spec fn file_stat(v: FsView, id: u64, k: Stat) -> Stat {
    Stat {
        st_mode: mode_bits(v.nodes[id]),
        st_ino: id,
        st_nlink: nlink_of(v, id),
        st_blksize: 4096,
        ..k
    }
}

/// A relative path without `..`: one that can be resolved by walking down
/// from an opened node. A path with `..` goes through the path resolver.
pub open spec fn resolvable_from_node(p: Seq<u8>) -> bool {
    &&& !is_absolute(p)
    &&& forall|i: int| 0 <= i < components(p).len() ==> #[trigger] components(p)[i] != dotdot()
}

/// Whether a directory listing can be read: every entry names a node.
pub open spec fn listable(v: FsView, id: u64) -> bool {
    is_dir_node(v, id) && forall|i: int|
        0 <= i < listing_of(v.nodes[id]).len() ==> present(
            v,
            #[trigger] listing_of(v.nodes[id])[i].1,
        )
}

/// `r` lists the listing `l`: names in order, with kind and inode number.
pub open spec fn lists(v: FsView, l: Seq<(Seq<u8>, u64)>, r: Seq<VfsDirEntry>) -> bool {
    &&& r.len() == l.len()
    &&& forall|i: int|
        0 <= i < l.len() ==> {
            &&& (#[trigger] r[i]).name@ == l[i].0
            &&& r[i].ino == Some(l[i].1)
            &&& r[i].kind == kind_of(v.nodes[l[i].1])
        }
}

/// The nodes after `chmod` of node `id`.
pub open spec fn with_mode(nodes: Map<u64, NodeView>, id: u64, mode: u32) -> Map<u64, NodeView> {
    nodes.insert(id, NodeView { mode: mode & 0o7777, ..nodes[id] })
}

/// The nodes after a handle on node `id` is released: a node without links
/// goes away with its last handle.
pub open spec fn release_outcome(nodes: Map<u64, NodeView>, id: u64) -> Map<u64, NodeView> {
    if !nodes.contains_key(id) || nodes[id].handles == 0 {
        nodes
    } else if nodes[id].handles == 1 && nodes[id].links == 0 {
        nodes.remove(id)
    } else {
        nodes.insert(id, NodeView { handles: (nodes[id].handles - 1) as u64, ..nodes[id] })
    }
}

/// The shape that every namespace of a `MemoryFS` keeps: the root is a
/// directory in the namespace, ids are above zero and below `next_id`,
/// listings are sorted, use entry names only (not empty, without a separator,
/// neither `.` nor `..`), and never name the root.
pub open spec fn view_wf(v: FsView) -> bool {
    &&& present(v, v.root)
    &&& is_dir_node(v, v.root)
    &&& forall|k: u64| #[trigger]
        v.nodes.contains_key(k) ==> 0 < k < v.next_id && sorted(listing_of(v.nodes[k])) && names_ok(
            listing_of(v.nodes[k]),
            v.root,
        )
}

/// A name that a directory entry can have: not empty, without a
/// separator, and neither `.` nor `..`.
pub open spec fn is_entry_name(c: Seq<u8>) -> bool {
    &&& is_normal(c)
    &&& c.len() > 0
    &&& !c.contains(SEP)
}

/// No entry of listing `l` names the root, and each has an entry name.
pub open spec fn names_ok(l: Seq<(Seq<u8>, u64)>, root: u64) -> bool {
    forall|i: int| 0 <= i < l.len() ==> (#[trigger] l[i]).1 != root && is_entry_name(l[i].0)
}

/// The flags used to open a backing object: the lookup flags are dropped,
/// as the virtual lookup has already happened.
pub open spec fn backing_flags(flags: i32) -> i32 {
    flags & !(O_CREAT | O_EXCL | O_NOFOLLOW | O_DIRECTORY)
}

pub fn backing_open_flags(flags: i32) -> (r: i32)
    ensures
        r == backing_flags(flags),
{
    flags & !(O_CREAT | O_EXCL | O_NOFOLLOW | O_DIRECTORY)
}

#[derive(Debug)]
enum NodeKind {
    File { backing_fd: i32 },
    Directory { entries: DirEntries, placeholder_fd: i32 },
}

#[derive(Debug)]
struct Node {
    id: u64,
    parent: Option<u64>,
    mode: u32,
    links: u64,
    handles: u64,
    kind: NodeKind,
}

impl Node {
    closed spec fn view(&self) -> NodeView {
        NodeView {
            parent: self.parent,
            mode: self.mode,
            links: self.links,
            handles: self.handles,
            kind: match self.kind {
                NodeKind::File { backing_fd } => KindView::File { backing_fd },
                NodeKind::Directory { entries, placeholder_fd } => KindView::Dir {
                    listing: entries.listing(),
                    placeholder_fd,
                },
            },
        }
    }

    closed spec fn wf(&self) -> bool {
        match self.kind {
            NodeKind::Directory { entries, .. } => entries.wf(),
            NodeKind::File { .. } => true,
        }
    }

    fn entry_kind(&self) -> (r: VfsEntryKind)
        ensures
            r == kind_of(self.view()),
    {
        match self.kind {
            NodeKind::File { .. } => VfsEntryKind::File,
            NodeKind::Directory { .. } => VfsEntryKind::Dir,
        }
    }

    fn backing_fd(&self) -> (r: i32)
        ensures
            r == backing_of(self.view()),
    {
        match self.kind {
            NodeKind::File { backing_fd } => backing_fd,
            NodeKind::Directory { placeholder_fd, .. } => placeholder_fd,
        }
    }

    fn is_dir(&self) -> (r: bool)
        ensures
            r == is_dir_view(self.view()),
    {
        match self.kind {
            NodeKind::File { .. } => false,
            NodeKind::Directory { .. } => true,
        }
    }
}

spec fn nodes_view(m: Map<u64, Node>) -> Map<u64, NodeView> {
    m.map_values(|n: Node| n.view())
}

proof fn lemma_nodes_view_insert(m: Map<u64, Node>, k: u64, n: Node)
    ensures
        nodes_view(m.insert(k, n)) == nodes_view(m).insert(k, n.view()),
{
    assert(nodes_view(m.insert(k, n)) =~= nodes_view(m).insert(k, n.view()));
}

proof fn lemma_nodes_view_remove(m: Map<u64, Node>, k: u64)
    ensures
        nodes_view(m.remove(k)) == nodes_view(m).remove(k),
{
    assert(nodes_view(m.remove(k)) =~= nodes_view(m).remove(k));
}

/// An in-memory filesystem: a namespace of nodes, each backed by a kernel
/// object from `B`.
#[derive(Debug)]
pub struct MemoryFS<B> {
    id: String,
    root: NodeId,
    next_id: NodeId,
    nodes: HashMap<NodeId, Node>,
    backing: B,
}

impl<B: NodeBacking> View for MemoryFS<B> {
    type V = FsView;

    closed spec fn view(&self) -> FsView {
        FsView { root: self.root, next_id: self.next_id, nodes: nodes_view(self.nodes@) }
    }
}

impl<B: NodeBacking> MemoryFS<B> {
    /// The structural invariant: the root is a directory in the namespace,
    /// ids are below `next_id` and above zero, entries are sorted and have
    /// entry names, and no entry names the root.
    pub closed spec fn inv(&self) -> bool {
        &&& self.nodes@.contains_key(self.root)
        &&& self.nodes@[self.root].links > 0
        &&& self.nodes@[self.root].view().kind is Dir
        &&& forall|k: u64| #[trigger]
            self.nodes@.contains_key(k) ==> {
                &&& self.nodes@[k].id == k
                &&& 0 < k < self.next_id
                &&& self.nodes@[k].wf()
                &&& names_ok(listing_of(self.nodes@[k].view()), self.root)
            }
    }

    pub closed spec fn spec_id(&self) -> Seq<char> {
        self.id@
    }

    /// The kernel objects behind the nodes.
    pub closed spec fn spec_backing(&self) -> B {
        self.backing
    }

    /// The kernel objects behind the nodes.
    pub fn backing(&self) -> (r: &B)
        ensures
            *r == self.spec_backing(),
    {
        &self.backing
    }

    /// What opening `path` relative to the opened node `h` does: nothing for
    /// an unknown node or a path that is absolute or holds `..`; otherwise
    /// the open, from that node, and a handle taken on what it opened.
    pub open spec fn child_open_answer(
        &self,
        post: &Self,
        h: u64,
        path: Seq<u8>,
        flags: i32,
        mode: u32,
        r: Option<OpenResult>,
    ) -> bool {
        &&& (!self@.nodes.contains_key(h) || !resolvable_from_node(path) ==> r is None
                && post@ == self@ && post.spec_backing() == self.spec_backing())
        &&& (self@.nodes.contains_key(h) && resolvable_from_node(path) ==> (r matches Some(o)
                && exists|mid: FsView, node: Option<u64>, b: i32, fd: i32|
                open_outcome(self@, mid, Some(h), path, flags, mode, b, fd, (o.fd, node))
                    && open_backing_steps(
                    self@,
                    self.spec_backing(),
                    post.spec_backing(),
                    Some(h),
                    path,
                    flags,
                    b,
                    fd,
                ) && handle_outcome(mid, post@, node, o.opened)))
    }

    /// What creating the directory `path` relative to the opened node `h`
    /// does: nothing for an unknown node or a path that is absolute or holds
    /// `..`; otherwise the creation, from that node.
    pub open spec fn child_mkdir_answer(&self, post: &Self, h: u64, path: Seq<u8>, mode: u32, r: Option<i32>) -> bool {
        &&& (!self@.nodes.contains_key(h) || !resolvable_from_node(path) ==> r is None
                && post@ == self@ && post.spec_backing() == self.spec_backing())
        &&& (self@.nodes.contains_key(h) && resolvable_from_node(path) ==> exists|
            c: Option<u64>,
            b: i32,
        |
            create_path_outcome(self@, post@, Some(h), path, VfsEntryKind::Dir, mode, b, c)
                && create_backing_steps(
                self@,
                self.spec_backing(),
                post.spec_backing(),
                Some(h),
                path,
                VfsEntryKind::Dir,
                b,
            ) && r == Some(
                if c is Some {
                    0i32
                } else {
                    -1i32
                },
            ))
    }

    /// What `stat` may give for node `id`: the record `stat_of` describes,
    /// which for a file is the backing's record of the node's own object
    /// with the node's mode, inode number, link count and block size.
    pub open spec fn stat_answer(&self, id: u64, s: Stat) -> bool {
        &&& stat_of(self@, id, s)
        &&& !is_dir_view(self@.nodes[id]) ==> exists|k: Stat|
            #[trigger] self.spec_backing().spec_stat(backing_of(self@.nodes[id]), k) && s
                == file_stat(self@, id, k)
    }

    /// A filesystem holding only its root directory.
    pub fn new(id: &str, backing: B) -> (r: Self)
        ensures
            r.inv(),
            r.spec_id() == id@,
            r@.root == 1,
            r@.next_id == 2,
            r@.nodes.dom() == set![1u64],
            r@.nodes[1] == (NodeView {
                parent: Some(1),
                mode: 0o755,
                links: 1,
                handles: 0,
                kind: KindView::Dir {
                    listing: Seq::empty(),
                    placeholder_fd: backing_of(r@.nodes[1]),
                },
            }),
            backing.spec_create(&r.spec_backing(), VfsEntryKind::Dir, backing_of(r@.nodes[1])),
    {
        let mut backing = backing;
        let placeholder_fd = backing.create_backing(VfsEntryKind::Dir);
        let root_id: u64 = 1;
        let root = Node {
            id: root_id,
            parent: Some(root_id),
            mode: 0o755,
            links: 1,
            handles: 0,
            kind: NodeKind::Directory { entries: DirEntries::new(), placeholder_fd },
        };
        let mut nodes: HashMap<NodeId, Node> = HashMap::new();
        nodes.insert(root_id, root);
        let r = MemoryFS { id: id.to_string(), root: root_id, next_id: 2, nodes, backing };
        proof {
            assert(r.nodes@.dom() =~= set![1u64]);
            assert(r@.nodes.dom() =~= set![1u64]);
        }
        r
    }

    /// The identifier given at creation.
    pub fn fs_id(&self) -> (r: &str)
        ensures
            r@ == self.spec_id(),
    {
        self.id.as_str()
    }

    fn present_node(&self, id: u64) -> (r: bool)
        requires
            self.inv(),
        ensures
            r == present(self@, id),
    {
        match self.nodes.get(&id) {
            Some(n) => n.links > 0,
            None => false,
        }
    }

    /// The node that `name` names in directory `dir`.
    fn child(&self, dir: u64, name: &[u8]) -> (r: Option<u64>)
        requires
            self.inv(),
        ensures
            r == child_of(self@, dir, name@),
    {
        match self.nodes.get(&dir) {
            Some(n) => match &n.kind {
                NodeKind::Directory { entries, .. } => {
                    assert(n.wf());
                    match entries.get(name) {
                        Some(c) => {
                            if self.present_node(c) {
                                Some(c)
                            } else {
                                None
                            }
                        },
                        None => None,
                    }
                },
                NodeKind::File { .. } => None,
            },
            None => None,
        }
    }
}


proof fn lemma_walk_none_extends(v: FsView, c: Seq<Seq<u8>>, i: int)
    requires
        0 <= i <= c.len(),
        walk(v, c.subrange(0, i)) is None,
    ensures
        walk(v, c) is None,
    decreases c.len() - i,
{
    if i < c.len() {
        assert(c.subrange(0, i + 1).drop_last() =~= c.subrange(0, i));
        lemma_walk_none_extends(v, c, i + 1);
    } else {
        assert(c.subrange(0, i) =~= c);
    }
}

proof fn lemma_walk_rel_none_extends(v: FsView, s: u64, c: Seq<Seq<u8>>, i: int)
    requires
        0 <= i <= c.len(),
        walk_rel(v, s, c.subrange(0, i)) is None,
    ensures
        walk_rel(v, s, c) is None,
    decreases c.len() - i,
{
    if i < c.len() {
        assert(c.subrange(0, i + 1).drop_last() =~= c.subrange(0, i));
        lemma_walk_rel_none_extends(v, s, c, i + 1);
    } else {
        assert(c.subrange(0, i) =~= c);
    }
}

impl<B: NodeBacking> MemoryFS<B> {
    /// Walks `comps` from the root.
    fn walk_components(&self, comps: &Vec<Vec<u8>>) -> (r: Option<u64>)
        requires
            self.inv(),
        ensures
            r == walk(self@, views(comps@)),
            r matches Some(id) ==> present(self@, id),
    {
        let ghost c = views(comps@);
        if !self.present_node(self.root) {
            assert(c.subrange(0, 0) =~= Seq::<Seq<u8>>::empty());
            proof {
                lemma_walk_none_extends(self@, c, 0);
            }
            return None;
        }
        let mut node = self.root;
        let mut i: usize = 0;
        assert(c.subrange(0, 0) =~= Seq::<Seq<u8>>::empty());
        while i < comps.len()
            invariant
                self.inv(),
                c == views(comps@),
                i <= comps.len(),
                walk(self@, c.subrange(0, i as int)) == Some(node),
                present(self@, node),
            decreases comps.len() - i,
        {
            let ghost pre = c.subrange(0, i as int);
            let ghost post = c.subrange(0, i + 1);
            assert(post.drop_last() =~= pre);
            assert(post.last() == comps@[i as int]@);
            if is_normal_component(&comps[i]) {
                match self.child(node, &comps[i]) {
                    Some(ch) => {
                        node = ch;
                    },
                    None => {
                        proof {
                            lemma_walk_none_extends(self@, c, i + 1);
                        }
                        return None;
                    },
                }
            }
            i += 1;
        }
        assert(c.subrange(0, comps.len() as int) =~= c);
        Some(node)
    }

    /// Walks `comps` from the node `start`.
    fn walk_components_from(&self, start: u64, comps: &Vec<Vec<u8>>) -> (r: Option<u64>)
        requires
            self.inv(),
            self@.nodes.contains_key(start),
        ensures
            r == walk_rel(self@, start, views(comps@)),
            r matches Some(id) ==> self@.nodes.contains_key(id),
    {
        let ghost c = views(comps@);
        let mut node = start;
        let mut i: usize = 0;
        assert(c.subrange(0, 0) =~= Seq::<Seq<u8>>::empty());
        while i < comps.len()
            invariant
                self.inv(),
                c == views(comps@),
                i <= comps.len(),
                walk_rel(self@, start, c.subrange(0, i as int)) == Some(node),
                self@.nodes.contains_key(node),
            decreases comps.len() - i,
        {
            let ghost pre = c.subrange(0, i as int);
            let ghost post = c.subrange(0, i + 1);
            assert(post.drop_last() =~= pre);
            assert(post.last() == comps@[i as int]@);
            if is_dot_component(&comps[i]) {
            } else if is_dotdot_component(&comps[i]) {
                let parent = match self.nodes.get(&node) {
                    Some(n) => n.parent,
                    None => None,
                };
                assert(parent == self@.nodes[node].parent);
                match parent {
                    Some(p) => {
                        if self.present_node(p) {
                            node = p;
                        } else {
                            proof {
                                lemma_walk_rel_none_extends(self@, start, c, i + 1);
                            }
                            return None;
                        }
                    },
                    None => {
                        proof {
                            lemma_walk_rel_none_extends(self@, start, c, i + 1);
                        }
                        return None;
                    },
                }
            } else {
                match self.child(node, &comps[i]) {
                    Some(ch) => {
                        node = ch;
                    },
                    None => {
                        proof {
                            lemma_walk_rel_none_extends(self@, start, c, i + 1);
                        }
                        return None;
                    },
                }
            }
            i += 1;
        }
        assert(c.subrange(0, comps.len() as int) =~= c);
        Some(node)
    }

    /// The node that `path` names, walking from the root or from `start`.
    fn resolve_from(&self, start: Option<u64>, path: &[u8]) -> (r: Option<u64>)
        requires
            self.inv(),
            start matches Some(s) ==> self@.nodes.contains_key(s),
            start is None ==> is_absolute(path@),
        ensures
            r == resolve_from(self@, start, path@),
            r matches Some(id) ==> self@.nodes.contains_key(id),
    {
        match start {
            None => {
                let comps = components_of(path);
                self.walk_components(&comps)
            },
            Some(s) => {
                if is_absolute_path(path) {
                    None
                } else {
                    let comps = components_of(path);
                    self.walk_components_from(s, &comps)
                }
            },
        }
    }

    /// The directory and the name under which `path` would be created.
    fn parent_from(&self, start: Option<u64>, path: &[u8]) -> (r: Option<(u64, Vec<u8>)>)
        requires
            self.inv(),
            start matches Some(s) ==> self@.nodes.contains_key(s),
            start is None ==> is_absolute(path@),
        ensures
            r matches Some((d, name)) ==> parent_from(self@, start, path@) == Some((d, name@))
                && is_entry_name(name@),
            r is None ==> parent_from(self@, start, path@) is None,
    {
        proof {
            lemma_components_well_formed(path@);
        }
        if start.is_some() && is_absolute_path(path) {
            return None;
        }
        let mut comps = components_of(path);
        let ghost c = views(comps@);
        if comps.len() == 0 {
            return None;
        }
        if !is_normal_component(&comps[comps.len() - 1]) {
            return None;
        }
        let name = comps.pop().unwrap();
        assert(views(comps@) =~= c.drop_last());
        let d = match start {
            None => self.walk_components(&comps),
            Some(s) => self.walk_components_from(s, &comps),
        };
        match d {
            Some(d) => Some((d, name)),
            None => None,
        }
    }

    /// Binds `name` to `id` in directory `d`.
    fn bind_entry(&mut self, d: u64, name: Vec<u8>, id: u64)
        requires
            old(self).inv(),
            is_dir_node(old(self)@, d),
            id != old(self)@.root,
            is_entry_name(name@),
        ensures
            final(self).inv(),
            final(self)@.root == old(self)@.root,
            final(self)@.next_id == old(self)@.next_id,
            final(self)@.nodes == bind(old(self)@.nodes, d, name@, id),
            final(self).spec_id() == old(self).spec_id(),
            final(self).spec_backing() == old(self).spec_backing(),
    {
        let ghost old_nodes = self.nodes@;
        let node = self.nodes.remove(&d).unwrap();
        let Node { id: nid, parent, mode, links, handles, kind } = node;
        let kind = match kind {
            NodeKind::Directory { mut entries, placeholder_fd } => {
                let ghost l = entries.listing();
                assert(old_nodes[d].wf());
                entries.insert(name, id);
                proof {
                    let nl = entries.listing();
                    assert forall|i: int| 0 <= i < nl.len() implies #[trigger] nl[i].1 != self.root
                        && is_normal(nl[i].0) by {
                        if nl[i] != (name@, id) {
                            assert(l.contains(nl[i]));
                            let j = choose|j: int| 0 <= j < l.len() && l[j] == nl[i];
                            assert(listing_of(old_nodes[d].view())[j].1 != self.root);
                        }
                    }
                }
                NodeKind::Directory { entries, placeholder_fd }
            },
            NodeKind::File { backing_fd } => NodeKind::File { backing_fd },
        };
        let node = Node { id: nid, parent, mode, links, handles, kind };
        self.nodes.insert(d, node);
        proof {
            lemma_nodes_view_insert(old_nodes.remove(d), d, node);
            lemma_nodes_view_remove(old_nodes, d);
            assert(old_nodes.remove(d).insert(d, node) =~= old_nodes.insert(d, node));
            lemma_nodes_view_insert(old_nodes, d, node);
            assert(node.view() == with_listing(
                old_nodes[d].view(),
                listing_insert(listing_of(old_nodes[d].view()), name@, id),
            ));
        }
    }
}


impl<B: NodeBacking> MemoryFS<B> {
    /// Whether `id` is a directory node.
    fn is_dir_node(&self, id: u64) -> (r: bool)
        ensures
            r == is_dir_node(self@, id),
    {
        match self.nodes.get(&id) {
            Some(n) => n.is_dir(),
            None => false,
        }
    }

    /// The entry `name` of `d`: `None` when `d` is not a directory.
    fn lookup_entry(&self, d: u64, name: &[u8]) -> (r: Option<Option<u64>>)
        requires
            self.inv(),
        ensures
            r is None <==> !is_dir_node(self@, d),
            r matches Some(e) ==> e == (if entry_map(listing_of(self@.nodes[d])).contains_key(
                name@,
            ) {
                Some(entry_map(listing_of(self@.nodes[d]))[name@])
            } else {
                None
            }),
            r matches Some(Some(id)) ==> id != self@.root,
    {
        match self.nodes.get(&d) {
            Some(n) => match &n.kind {
                NodeKind::Directory { entries, .. } => {
                    assert(n.wf());
                    let e = entries.get(name);
                    proof {
                        if let Some(id) = e {
                            let l = listing_of(self@.nodes[d]);
                            let k = super::dir_entries::index_of(l, name@);
                            assert(l[k].1 != self.root);
                        }
                    }
                    Some(e)
                },
                NodeKind::File { .. } => None,
            },
            None => None,
        }
    }

    /// Removes the binding of `name` in directory `d`.
    fn unbind_entry(&mut self, d: u64, name: &[u8])
        requires
            old(self).inv(),
            is_dir_node(old(self)@, d),
        ensures
            final(self).inv(),
            final(self)@.root == old(self)@.root,
            final(self)@.next_id == old(self)@.next_id,
            final(self)@.nodes == unbind(old(self)@.nodes, d, name@),
            final(self).spec_id() == old(self).spec_id(),
            final(self).spec_backing() == old(self).spec_backing(),
    {
        let ghost old_nodes = self.nodes@;
        let node = self.nodes.remove(&d).unwrap();
        let Node { id: nid, parent, mode, links, handles, kind } = node;
        let kind = match kind {
            NodeKind::Directory { mut entries, placeholder_fd } => {
                let ghost l = entries.listing();
                assert(old_nodes[d].wf());
                entries.remove(name);
                proof {
                    let nl = entries.listing();
                    assert forall|i: int| 0 <= i < nl.len() implies #[trigger] nl[i].1 != self.root
                        && is_normal(nl[i].0) by {
                        assert(l.contains(nl[i]));
                        let j = choose|j: int| 0 <= j < l.len() && l[j] == nl[i];
                        assert(listing_of(old_nodes[d].view())[j].1 != self.root);
                    }
                }
                NodeKind::Directory { entries, placeholder_fd }
            },
            NodeKind::File { backing_fd } => NodeKind::File { backing_fd },
        };
        let node = Node { id: nid, parent, mode, links, handles, kind };
        self.nodes.insert(d, node);
        proof {
            assert(old_nodes.remove(d).insert(d, node) =~= old_nodes.insert(d, node));
            lemma_nodes_view_insert(old_nodes, d, node);
            assert(node.view() == with_listing(
                old_nodes[d].view(),
                listing_remove(listing_of(old_nodes[d].view()), name@),
            ));
        }
    }

    /// Node `id` leaves the namespace; its backing object is released when no
    /// handle holds it.
    fn detach_node(&mut self, id: u64)
        requires
            old(self).inv(),
            old(self)@.nodes.contains_key(id),
            id != old(self)@.root,
        ensures
            final(self).inv(),
            final(self)@.root == old(self)@.root,
            final(self)@.next_id == old(self)@.next_id,
            final(self)@.nodes == detach(old(self)@.nodes, id),
            final(self).spec_id() == old(self).spec_id(),
            detach_release(old(self)@.nodes, old(self).spec_backing(), final(self).spec_backing(), id),
    {
        let ghost old_nodes = self.nodes@;
        let node = self.nodes.remove(&id).unwrap();
        if node.handles == 0 {
            let fd = node.backing_fd();
            self.backing.release_backing(fd);
            proof {
                lemma_nodes_view_remove(old_nodes, id);
            }
        } else {
            let ghost old_node = node;
            let Node { id: nid, parent: _, mode, links: _, handles, kind } = node;
            let node = Node { id: nid, parent: None, mode, links: 0, handles, kind };
            self.nodes.insert(id, node);
            proof {
                assert(old_nodes[id] == old_node);
                assert(node.wf() == old_node.wf());
                assert(listing_of(node.view()) == listing_of(old_node.view()));
                assert(self.nodes@ == old_nodes.insert(id, node));
                assert(old_nodes.remove(id).insert(id, node) =~= old_nodes.insert(id, node));
                lemma_nodes_view_insert(old_nodes, id, node);
                assert(node.view() == (NodeView {
                    parent: None,
                    links: 0,
                    ..old_nodes[id].view()
                }));
            }
        }
    }

    /// Sets the parent of node `id`.
    fn set_parent(&mut self, id: u64, p: u64)
        requires
            old(self).inv(),
            old(self)@.nodes.contains_key(id),
        ensures
            final(self).inv(),
            final(self)@.root == old(self)@.root,
            final(self)@.next_id == old(self)@.next_id,
            final(self)@.nodes == old(self)@.nodes.insert(
                id,
                NodeView { parent: Some(p), ..old(self)@.nodes[id] },
            ),
            final(self).spec_id() == old(self).spec_id(),
            final(self).spec_backing() == old(self).spec_backing(),
    {
        let ghost old_nodes = self.nodes@;
        let node = self.nodes.remove(&id).unwrap();
        let ghost old_node = node;
        let Node { id: nid, parent: _, mode, links, handles, kind } = node;
        let node = Node { id: nid, parent: Some(p), mode, links, handles, kind };
        self.nodes.insert(id, node);
        proof {
            assert(old_nodes[id] == old_node);
            assert(node.wf() == old_node.wf());
            assert(listing_of(node.view()) == listing_of(old_node.view()));
            assert(node.view().kind == old_node.view().kind);
            assert(self.nodes@ == old_nodes.insert(id, node));
            assert(old_nodes.remove(id).insert(id, node) =~= old_nodes.insert(id, node));
            lemma_nodes_view_insert(old_nodes, id, node);
        }
    }

    /// Creates a node named `name` in directory `parent`.
    fn create_node_in_dir(&mut self, parent: u64, name: &[u8], kind: VfsEntryKind, mode: u32) -> (r:
        Option<u64>)
        requires
            old(self).inv(),
            is_entry_name(name@),
        ensures
            final(self).inv(),
            final(self).spec_id() == old(self).spec_id(),
            exists|b: i32|
                create_outcome(old(self)@, final(self)@, parent, name@, kind, mode, b, r) && if can_create_in(
                    old(self)@,
                    parent,
                    name@,
                ) {
                    old(self).spec_backing().spec_create(&final(self).spec_backing(), kind, b)
                } else {
                    final(self).spec_backing() == old(self).spec_backing()
                },
    {
        let free = match self.lookup_entry(parent, name) {
            Some(e) => e.is_none(),
            None => false,
        };
        if !free {
            assert(create_outcome(old(self)@, self@, parent, name@, kind, mode, 0, None));
            return None;
        }
        if self.next_id == u64::MAX {
            assert(create_outcome(old(self)@, self@, parent, name@, kind, mode, 0, None));
            return None;
        }
        let ghost old_v = self@;
        let id = self.next_id;
        self.next_id = id + 1;
        let fd = self.backing.create_backing(kind);
        if fd < 0 {
            assert(create_outcome(old(self)@, self@, parent, name@, kind, mode, fd, None));
            return None;
        }
        let node_kind = match kind {
            VfsEntryKind::File => NodeKind::File { backing_fd: fd },
            VfsEntryKind::Dir => NodeKind::Directory { entries: DirEntries::new(), placeholder_fd: fd },
        };
        let node = Node {
            id,
            parent: Some(parent),
            mode: mode & 0o7777,
            links: 1,
            handles: 0,
            kind: node_kind,
        };
        let ghost before = self.nodes@;
        self.nodes.insert(id, node);
        proof {
            lemma_nodes_view_insert(before, id, node);
            assert(node.view() == fresh_node(parent, mode, kind, fd));
            assert(listing_of(node.view()) =~= Seq::<(Seq<u8>, u64)>::empty());
        }
        let name_vec = vstd::slice::slice_to_vec(name);
        self.bind_entry(parent, name_vec, id);
        assert(create_outcome(old(self)@, self@, parent, name@, kind, mode, fd, Some(id)));
        Some(id)
    }

    /// Creates `path`, from the root or relative to the node `start`.
    fn create_path(&mut self, start: Option<u64>, path: &[u8], kind: VfsEntryKind, mode: u32) -> (r:
        Option<u64>)
        requires
            old(self).inv(),
            start matches Some(s) ==> old(self)@.nodes.contains_key(s),
            start is None ==> is_absolute(path@),
        ensures
            final(self).inv(),
            final(self).spec_id() == old(self).spec_id(),
            exists|b: i32|
                create_path_outcome(old(self)@, final(self)@, start, path@, kind, mode, b, r)
                    && create_backing_steps(
                    old(self)@,
                    old(self).spec_backing(),
                    final(self).spec_backing(),
                    start,
                    path@,
                    kind,
                    b,
                ),
    {
        match self.parent_from(start, path) {
            Some((d, name)) => {
                let r = self.create_node_in_dir(d, &name, kind, mode);
                proof {
                    let b = choose|b: i32|
                        create_outcome(old(self)@, self@, d, name@, kind, mode, b, r) && if can_create_in(
                            old(self)@,
                            d,
                            name@,
                        ) {
                            old(self).spec_backing().spec_create(&self.spec_backing(), kind, b)
                        } else {
                            self.spec_backing() == old(self).spec_backing()
                        };
                    assert(create_path_outcome(old(self)@, self@, start, path@, kind, mode, b, r));
                    assert(create_backing_steps(
                        old(self)@,
                        old(self).spec_backing(),
                        self.spec_backing(),
                        start,
                        path@,
                        kind,
                        b,
                    ));
                }
                r
            },
            None => {
                assert(create_path_outcome(old(self)@, self@, start, path@, kind, mode, 0, None));
                None
            },
        }
    }

    /// Removes the entry `path` when it names a node of `kind` (a directory
    /// only when it is empty).
    fn remove_node_at(&mut self, path: &[u8], kind: VfsEntryKind) -> (r: i32)
        requires
            old(self).inv(),
            is_absolute(path@),
        ensures
            final(self).inv(),
            final(self).spec_id() == old(self).spec_id(),
            final(self)@.root == old(self)@.root,
            final(self)@.next_id == old(self)@.next_id,
            (r, final(self)@.nodes) == remove_outcome(old(self)@, path@, kind),
            remove_backing_step(
                old(self)@,
                old(self).spec_backing(),
                final(self).spec_backing(),
                path@,
                kind,
            ),
    {
        if is_root_path(path) {
            return -1;
        }
        let (d, name) = match self.parent_from(None, path) {
            Some(x) => x,
            None => return -1,
        };
        let id = match self.lookup_entry(d, &name) {
            Some(Some(id)) => id,
            _ => return -1,
        };
        if !self.present_node(id) {
            self.unbind_entry(d, &name);
            return -1;
        }
        let matches = match self.nodes.get(&id) {
            Some(n) => match &n.kind {
                NodeKind::File { .. } => match kind {
                    VfsEntryKind::File => true,
                    VfsEntryKind::Dir => false,
                },
                NodeKind::Directory { entries, .. } => match kind {
                    VfsEntryKind::Dir => entries.is_empty(),
                    VfsEntryKind::File => false,
                },
            },
            None => false,
        };
        if !matches {
            return -1;
        }
        self.unbind_entry(d, &name);
        self.detach_node(id);
        0
    }

    /// Whether node `src` may take the place of node `dst`.
    fn can_replace_node(&self, src: u64, dst: u64) -> (r: bool)
        requires
            self@.nodes.contains_key(src),
            self@.nodes.contains_key(dst),
        ensures
            r == can_replace(self@.nodes[src], self@.nodes[dst]),
    {
        let s = self.nodes.get(&src).unwrap();
        let d = self.nodes.get(&dst).unwrap();
        match (&s.kind, &d.kind) {
            (NodeKind::File { .. }, NodeKind::File { .. }) => true,
            (NodeKind::Directory { .. }, NodeKind::Directory { entries, .. }) => entries.is_empty(),
            _ => false,
        }
    }

    /// Moves the entry `old_path` to `new_path`, replacing a file by a file or
    /// an empty directory by a directory.
    fn rename_node_at(&mut self, old_path: &[u8], new_path: &[u8]) -> (r: i32)
        requires
            old(self).inv(),
            is_absolute(old_path@),
            is_absolute(new_path@),
        ensures
            final(self).inv(),
            final(self).spec_id() == old(self).spec_id(),
            final(self)@.root == old(self)@.root,
            final(self)@.next_id == old(self)@.next_id,
            (r, final(self)@.nodes) == rename_outcome(old(self)@, old_path@, new_path@),
            rename_backing_step(
                old(self)@,
                old(self).spec_backing(),
                final(self).spec_backing(),
                old_path@,
                new_path@,
            ),
    {
        if is_root_path(old_path) || is_root_path(new_path) {
            return -1;
        }
        if paths_equal(old_path, new_path) {
            return 0;
        }
        let (op, on) = match self.parent_from(None, old_path) {
            Some(x) => x,
            None => return -1,
        };
        let (np, nn) = match self.parent_from(None, new_path) {
            Some(x) => x,
            None => return -1,
        };
        if !self.is_dir_node(op) || !self.is_dir_node(np) {
            return -1;
        }
        let old_id = match self.lookup_entry(op, &on) {
            Some(Some(id)) => id,
            _ => return -1,
        };
        if !self.present_node(old_id) {
            return -1;
        }
        if self.is_dir_node(old_id) && path_starts_with(new_path, old_path) {
            return -1;
        }
        let dst = match self.lookup_entry(np, &nn) {
            Some(e) => e,
            None => return -1,
        };
        if dst == Some(old_id) {
            return 0;
        }
        let ghost v = self@;
        match dst {
            Some(rid) => {
                if !self.present_node(rid) {
                    return -1;
                }
                if !self.can_replace_node(old_id, rid) {
                    return -1;
                }
                proof {
                    // the replaced node is neither directory that changes
                    let om = entry_map(listing_of(v.nodes[op]));
                    let nm = entry_map(listing_of(v.nodes[np]));
                    if rid == op {
                        assert(om.contains_key(on@));
                        assert(listing_of(v.nodes[op]).len() > 0);
                    }
                    if rid == np {
                        assert(nm.contains_key(nn@));
                        assert(listing_of(v.nodes[np]).len() > 0);
                    }
                }
            },
            None => {},
        }
        if op == np {
            match dst {
                Some(rid) => self.detach_node(rid),
                None => {},
            }
            self.unbind_entry(op, &on);
            self.bind_entry(op, nn, old_id);
        } else {
            self.unbind_entry(op, &on);
            self.bind_entry(np, nn, old_id);
            match dst {
                Some(rid) => self.detach_node(rid),
                None => {},
            }
            self.set_parent(old_id, np);
        }
        0
    }
}


impl<B: NodeBacking> MemoryFS<B> {
    /// Resolves `path` and opens the node it names, creating a file when
    /// `O_CREAT` asks for one; `O_EXCL` refuses an existing node and
    /// `O_DIRECTORY` anything but a directory.
    fn open_resolved(&mut self, start: Option<u64>, path: &[u8], flags: i32, mode: u32) -> (r: (
        i32,
        Option<u64>,
    ))
        requires
            old(self).inv(),
            start matches Some(s) ==> old(self)@.nodes.contains_key(s),
            start is None ==> is_absolute(path@),
        ensures
            final(self).inv(),
            final(self).spec_id() == old(self).spec_id(),
            exists|b: i32, o: i32|
                open_outcome(old(self)@, final(self)@, start, path@, flags, mode, b, o, r)
                    && open_backing_steps(
                    old(self)@,
                    old(self).spec_backing(),
                    final(self).spec_backing(),
                    start,
                    path@,
                    flags,
                    b,
                    o,
                ),
            r.1 matches Some(id) ==> final(self)@.nodes.contains_key(id),
    {
        let ghost old_v = self@;
        let ghost s0 = *self;
        let ghost bk0 = self.spec_backing();
        let existing = self.resolve_from(start, path);
        if existing.is_some() && flags & (O_CREAT | O_EXCL) == (O_CREAT | O_EXCL) {
            assert(open_outcome(old_v, self@, start, path@, flags, mode, 0, 0, (-1i32, None::<u64>)));
            assert(open_backing_steps(old_v, bk0, self.spec_backing(), start, path@, flags, 0, 0));
            return (-1, None);
        }
        let ghost mut b: i32 = 0;
        let node = match existing {
            Some(n) => n,
            None => {
                if flags & O_CREAT != 0 {
                    let c = self.create_path(start, path, VfsEntryKind::File, mode);
                    proof {
                        b = choose|b: i32|
                            create_path_outcome(old_v, self@, start, path@, VfsEntryKind::File, mode, b, c)
                                && create_backing_steps(
                                old_v,
                                bk0,
                                self.spec_backing(),
                                start,
                                path@,
                                VfsEntryKind::File,
                                b,
                            );
                    }
                    match c {
                        Some(n) => n,
                        None => {
                            assert(open_outcome(old_v, self@, start, path@, flags, mode, b, 0, (-1i32, None::<u64>)));
                            assert(open_backing_steps(old_v, bk0, self.spec_backing(), start, path@, flags, b, 0));
                            return (-1, None);
                        },
                    }
                } else {
                    assert(open_outcome(old_v, self@, start, path@, flags, mode, 0, 0, (-1i32, None::<u64>)));
                    assert(open_backing_steps(old_v, bk0, self.spec_backing(), start, path@, flags, 0, 0));
                    return (-1, None);
                }
            },
        };
        let ghost created = existing is None;
        let ghost bk1 = self.spec_backing();
        proof {
            if created {
                assert(create_path_outcome(old_v, self@, start, path@, VfsEntryKind::File, mode, b, Some(node)));
                lemma_memory_view_wf(s0);
                let (d, nm) = parent_from(old_v, start, path@).unwrap();
                assert(can_create_in(old_v, d, nm));
                assert(old_v.nodes.contains_key(d));
                assert(d < old_v.next_id);
                assert(b >= 0);
                assert(node == old_v.next_id);
                assert(self@.nodes.contains_key(node));
                assert(self@.nodes[node] == fresh_node(d, mode, VfsEntryKind::File, b));
                assert(asks_create(old_v, start, path@));
            }
        }
        if flags & O_DIRECTORY != 0 && !self.is_dir_node(node) {
            assert(open_outcome(old_v, self@, start, path@, flags, mode, b, 0, (-1i32, None::<u64>)));
            assert(open_backing_steps(old_v, bk0, self.spec_backing(), start, path@, flags, b, 0));
            return (-1, None);
        }
        let bfd = self.nodes.get(&node).unwrap().backing_fd();
        let fd = self.backing.open_backing(bfd, backing_open_flags(flags));
        let r = if fd < 0 {
            (-1, None)
        } else {
            (fd, Some(node))
        };
        proof {
            if created {
                assert(bfd == b);
                assert(bk0.spec_create(&bk1, VfsEntryKind::File, b));
                assert(bk1.spec_open(&self.spec_backing(), b, backing_flags(flags), fd));
            }
        }
        assert(open_outcome(old_v, self@, start, path@, flags, mode, b, fd, r));
        assert(open_backing_steps(old_v, bk0, self.spec_backing(), start, path@, flags, b, fd));
        r
    }

    /// One more handle holds node `id`, unless its count is saturated.
    fn take_handle(&mut self, id: u64) -> (r: bool)
        requires
            old(self).inv(),
            old(self)@.nodes.contains_key(id),
        ensures
            final(self).inv(),
            final(self).spec_id() == old(self).spec_id(),
            final(self).spec_backing() == old(self).spec_backing(),
            r == (old(self)@.nodes[id].handles < u64::MAX),
            r ==> final(self)@ == (FsView { nodes: with_handle(old(self)@.nodes, id), ..old(self)@ }),
            !r ==> final(self)@ == old(self)@,
    {
        let ghost old_nodes = self.nodes@;
        if self.nodes.get(&id).unwrap().handles == u64::MAX {
            return false;
        }
        let node = self.nodes.remove(&id).unwrap();
        let ghost old_node = node;
        let Node { id: nid, parent, mode, links, handles, kind } = node;
        let node = Node { id: nid, parent, mode, links, handles: handles + 1, kind };
        self.nodes.insert(id, node);
        proof {
            assert(old_nodes[id] == old_node);
            assert(node.wf() == old_node.wf());
            assert(listing_of(node.view()) == listing_of(old_node.view()));
            assert(node.view().kind == old_node.view().kind);
            assert(old_nodes.remove(id).insert(id, node) =~= old_nodes.insert(id, node));
            lemma_nodes_view_insert(old_nodes, id, node);
            assert(self@ == (FsView { nodes: with_handle(old_nodes.map_values(|n: Node| n.view()), id), ..old(self)@ }));
        }
        true
    }

    /// The number of entries of `entries` that name directories in the namespace.
    fn count_dir_children(&self, entries: &DirEntries) -> (r: u64)
        requires
            self.inv(),
        ensures
            r == count_dirs(self@, entries.listing()),
    {
        let ghost l = entries.listing();
        let mut count: u64 = 0;
        let mut i: usize = 0;
        assert(l.subrange(0, 0) =~= Seq::<(Seq<u8>, u64)>::empty());
        while i < entries.len()
            invariant
                self.inv(),
                l == entries.listing(),
                i <= l.len(),
                count == count_dirs(self@, l.subrange(0, i as int)),
                count <= i,
            decreases l.len() - i,
        {
            let (_, id) = entries.entry(i);
            let ghost pre = l.subrange(0, i as int);
            let ghost post = l.subrange(0, i + 1);
            assert(post.drop_last() =~= pre);
            if self.present_node(id) && self.is_dir_node(id) {
                count = count + 1;
            }
            i += 1;
        }
        assert(l.subrange(0, l.len() as int) =~= l);
        count
    }

    /// Fills `statbuf` for node `id`.
    fn stat_node(&self, id: u64, statbuf: &mut Stat) -> (r: i32)
        requires
            self.inv(),
            self@.nodes.contains_key(id),
        ensures
            r == 0,
            self.stat_answer(id, *final(statbuf)),
    {
        let n = self.nodes.get(&id).unwrap();
        *statbuf = Stat::zeroed();
        let is_dir = n.is_dir();
        if !is_dir {
            self.backing.stat_backing(n.backing_fd(), statbuf);
        }
        let ghost k = *statbuf;
        statbuf.st_mode = (if is_dir {
            S_IFDIR
        } else {
            S_IFREG
        }) | n.mode;
        statbuf.st_ino = id;
        statbuf.st_nlink = if n.links == 0 {
            0
        } else {
            match &n.kind {
                NodeKind::File { .. } => 1,
                NodeKind::Directory { entries, .. } => {
                    let c = self.count_dir_children(entries);
                    if c <= u64::MAX - 2 {
                        c + 2
                    } else {
                        u64::MAX
                    }
                },
            }
        };
        statbuf.st_blksize = 4096;
        proof {
            if !is_dir {
                assert(self@.nodes[id] == n.view());
                assert(self.spec_backing().spec_stat(backing_of(self@.nodes[id]), k));
                assert(*statbuf == file_stat(self@, id, k));
            }
        }
        0
    }

    /// The entries of directory `id`.
    fn read_node_dir(&self, id: u64) -> (r: Option<Vec<VfsDirEntry>>)
        requires
            self.inv(),
        ensures
            r is None <==> !listable(self@, id),
            r matches Some(e) ==> lists(self@, listing_of(self@.nodes[id]), e@),
    {
        let n = match self.nodes.get(&id) {
            Some(n) => n,
            None => return None,
        };
        let entries = match &n.kind {
            NodeKind::Directory { entries, .. } => entries,
            NodeKind::File { .. } => return None,
        };
        let ghost l = entries.listing();
        assert(l == listing_of(self@.nodes[id]));
        let mut out: Vec<VfsDirEntry> = Vec::new();
        let mut i: usize = 0;
        while i < entries.len()
            invariant
                self.inv(),
                l == entries.listing(),
                l == listing_of(self@.nodes[id]),
                is_dir_node(self@, id),
                i <= l.len(),
                out@.len() == i,
                forall|k: int| 0 <= k < i ==> present(self@, #[trigger] l[k].1),
                forall|k: int|
                    0 <= k < i ==> {
                        &&& (#[trigger] out@[k]).name@ == l[k].0
                        &&& out@[k].ino == Some(l[k].1)
                        &&& out@[k].kind == kind_of(self@.nodes[l[k].1])
                    },
            decreases l.len() - i,
        {
            let (name, child) = entries.entry(i);
            if !self.present_node(child) {
                return None;
            }
            let c = self.nodes.get(&child).unwrap();
            out.push(VfsDirEntry { name: name.clone(), kind: c.entry_kind(), ino: Some(child) });
            i += 1;
        }
        Some(out)
    }

    /// Sets the permission bits of node `id`.
    fn chmod_node(&mut self, id: u64, mode: u32)
        requires
            old(self).inv(),
            old(self)@.nodes.contains_key(id),
        ensures
            final(self).inv(),
            final(self).spec_id() == old(self).spec_id(),
            final(self)@ == (FsView { nodes: with_mode(old(self)@.nodes, id, mode), ..old(self)@ }),
            chmod_backing_step(old(self)@, old(self).spec_backing(), final(self).spec_backing(), id, mode),
    {
        let ghost old_nodes = self.nodes@;
        let node = self.nodes.remove(&id).unwrap();
        let ghost old_node = node;
        let Node { id: nid, parent, mode: _, links, handles, kind } = node;
        let fd = match &kind {
            NodeKind::File { backing_fd } => Some(*backing_fd),
            NodeKind::Directory { .. } => None,
        };
        let node = Node { id: nid, parent, mode: mode & 0o7777, links, handles, kind };
        self.nodes.insert(id, node);
        proof {
            assert(old_nodes[id] == old_node);
            assert(node.wf() == old_node.wf());
            assert(listing_of(node.view()) == listing_of(old_node.view()));
            assert(node.view().kind == old_node.view().kind);
            assert(old_nodes.remove(id).insert(id, node) =~= old_nodes.insert(id, node));
            lemma_nodes_view_insert(old_nodes, id, node);
        }
        match fd {
            Some(fd) => self.backing.chmod_backing(fd, mode),
            None => {},
        }
    }
}


/// Law: the namespace of every `MemoryFS` has the shape `view_wf` states.
pub proof fn lemma_memory_view_wf<B: NodeBacking>(fs: MemoryFS<B>)
    requires
        fs.inv(),
    ensures
        view_wf(fs@),
{
    assert forall|k: u64| #[trigger] fs@.nodes.contains_key(k) implies 0 < k < fs@.next_id
        && sorted(listing_of(fs@.nodes[k])) && names_ok(listing_of(fs@.nodes[k]), fs@.root) by {
        assert(fs.nodes@.contains_key(k));
        assert(fs@.nodes[k] == fs.nodes@[k].view());
        assert(fs.nodes@[k].wf());
        match fs.nodes@[k].kind {
            NodeKind::Directory { entries, .. } => {
                assert(listing_of(fs@.nodes[k]) == entries.listing());
            },
            NodeKind::File { .. } => {
                assert(listing_of(fs@.nodes[k]) =~= Seq::<(Seq<u8>, u64)>::empty());
            },
        }
    }
    assert(fs.nodes@.contains_key(fs.root));
    assert(fs@.nodes[fs.root] == fs.nodes@[fs.root].view());
}

/// Whether `path` can be resolved from an opened node: a relative path
/// without `..` can; a path with `..` falls back to the path resolver.
pub fn can_resolve_relative_to_opened_node(path: &[u8]) -> (r: bool)
    ensures
        r == resolvable_from_node(path@),
{
    if is_absolute_path(path) {
        return false;
    }
    let comps = components_of(path);
    let ghost c = components(path@);
    let mut i: usize = 0;
    while i < comps.len()
        invariant
            i <= comps@.len(),
            views(comps@) == c,
            c == components(path@),
            forall|j: int| 0 <= j < i ==> #[trigger] c[j] != dotdot(),
        decreases comps@.len() - i,
    {
        assert(c[i as int] == comps@[i as int]@);
        if comps[i].len() == 2 && comps[i][0] == 46 && comps[i][1] == 46 {
            assert(comps@[i as int]@ =~= dotdot());
            return false;
        }
        assert(comps@[i as int]@ != dotdot());
        i += 1;
    }
    true
}

impl<B: NodeBacking> MemoryFS<B> {
    /// Fills `statbuf` for the opened node `h`.
    pub fn handle_stat(&self, h: u64, statbuf: &mut Stat) -> (r: i32)
        requires
            self.inv(),
        ensures
            self@.nodes.contains_key(h) ==> r == 0 && self.stat_answer(h, *final(statbuf)),
            !self@.nodes.contains_key(h) ==> r == -1 && *final(statbuf) == *old(statbuf),
    {
        if self.nodes.contains_key(&h) {
            self.stat_node(h, statbuf)
        } else {
            -1
        }
    }

    /// Opens `path` relative to the opened node `h`, taking a handle on what
    /// it opens; `None` for a path that is absolute or holds `..`, which the
    /// caller resolves by path instead.
    pub fn handle_open_child(&mut self, h: u64, path: &[u8], flags: i32, mode: u32) -> (r: Option<
        OpenResult,
    >)
        requires
            old(self).inv(),
        ensures
            final(self).inv(),
            final(self).spec_id() == old(self).spec_id(),
            old(self).child_open_answer(&*final(self), h, path@, flags, mode, r),
    {
        if !self.nodes.contains_key(&h) || !can_resolve_relative_to_opened_node(path) {
            return None;
        }
        let (fd, node) = self.open_resolved(Some(h), path, flags, mode);
        let ghost mid = self@;
        let ghost (b, o) = choose|b: i32, o: i32|
            open_outcome(old(self)@, mid, Some(h), path@, flags, mode, b, o, (fd, node))
                && open_backing_steps(
                old(self)@,
                old(self).spec_backing(),
                self.spec_backing(),
                Some(h),
                path@,
                flags,
                b,
                o,
            );
        let opened = match node {
            Some(id) => {
                if self.take_handle(id) {
                    Some(id)
                } else {
                    None
                }
            },
            None => None,
        };
        assert(handle_outcome(mid, self@, node, opened));
        assert(open_outcome(old(self)@, mid, Some(h), path@, flags, mode, b, o, (fd, node)));
        assert(open_backing_steps(
            old(self)@,
            old(self).spec_backing(),
            self.spec_backing(),
            Some(h),
            path@,
            flags,
            b,
            o,
        ));
        let res = OpenResult { fd, opened };
        assert(res.fd == fd && res.opened == opened);
        assert(handle_outcome(mid, self@, node, res.opened));
        assert(exists|mid: FsView, node: Option<u64>, b: i32, fd: i32|
            open_outcome(old(self)@, mid, Some(h), path@, flags, mode, b, fd, (res.fd, node))
                && open_backing_steps(
                old(self)@,
                old(self).spec_backing(),
                self.spec_backing(),
                Some(h),
                path@,
                flags,
                b,
                fd,
            ) && handle_outcome(mid, self@, node, res.opened));
        Some(res)
    }

    /// Creates the directory `path` relative to the opened node `h`; `None`
    /// for a path that is absolute or holds `..`, which the caller resolves
    /// by path instead.
    pub fn handle_mkdir_child(&mut self, h: u64, path: &[u8], mode: u32) -> (r: Option<i32>)
        requires
            old(self).inv(),
        ensures
            final(self).inv(),
            final(self).spec_id() == old(self).spec_id(),
            old(self).child_mkdir_answer(&*final(self), h, path@, mode, r),
    {
        if !self.nodes.contains_key(&h) || !can_resolve_relative_to_opened_node(path) {
            return None;
        }
        let c = self.create_path(Some(h), path, VfsEntryKind::Dir, mode);
        let r = match c {
            Some(_) => 0,
            None => -1,
        };
        Some(r)
    }

    /// The entries of the opened directory `h`.
    pub fn handle_read_dir(&self, h: u64) -> (r: Option<Vec<VfsDirEntry>>)
        requires
            self.inv(),
        ensures
            r is None <==> !listable(self@, h),
            r matches Some(e) ==> lists(self@, listing_of(self@.nodes[h]), e@),
    {
        self.read_node_dir(h)
    }

    /// Gives back a handle on node `h`; an unlinked node goes away with its
    /// last handle, and its backing object is released.
    pub fn release_handle(&mut self, h: u64)
        requires
            old(self).inv(),
        ensures
            final(self).inv(),
            final(self).spec_id() == old(self).spec_id(),
            final(self)@ == (FsView { nodes: release_outcome(old(self)@.nodes, h), ..old(self)@ }),
            release_backing_step(old(self)@.nodes, old(self).spec_backing(), final(self).spec_backing(), h),
    {
        let ghost old_nodes = self.nodes@;
        let handles = match self.nodes.get(&h) {
            Some(n) => n.handles,
            None => return,
        };
        if handles == 0 {
            return;
        }
        let node = self.nodes.remove(&h).unwrap();
        let ghost old_node = node;
        if node.handles == 1 && node.links == 0 {
            self.backing.release_backing(node.backing_fd());
            proof {
                lemma_nodes_view_remove(old_nodes, h);
                assert(h != self.root);
            }
        } else {
            let Node { id: nid, parent, mode, links, handles, kind } = node;
            let node = Node { id: nid, parent, mode, links, handles: handles - 1, kind };
            self.nodes.insert(h, node);
            proof {
                assert(old_nodes[h] == old_node);
                assert(node.wf() == old_node.wf());
                assert(listing_of(node.view()) == listing_of(old_node.view()));
                assert(node.view().kind == old_node.view().kind);
                assert(old_nodes.remove(h).insert(h, node) =~= old_nodes.insert(h, node));
                lemma_nodes_view_insert(old_nodes, h, node);
            }
        }
    }
}

impl<B: NodeBacking> LowLevelFS for MemoryFS<B> {
    open spec fn fs_inv(&self) -> bool {
        self.inv()
    }

    open spec fn spec_access(&self, path: Seq<u8>, mode: i32, r: i32) -> bool {
        r == (if resolve(self@, path) is Some {
            0i32
        } else {
            -1i32
        })
    }

    open spec fn spec_open(&self, post: &Self, path: Seq<u8>, flag: i32, mode: u32, r: i32) -> bool {
        &&& post.spec_id() == self.spec_id()
        &&& exists|b: i32, o: i32, rr: (i32, Option<u64>)|
            open_outcome(self@, post@, None, path, flag, mode, b, o, rr) && open_backing_steps(
                self@,
                self.spec_backing(),
                post.spec_backing(),
                None,
                path,
                flag,
                b,
                o,
            ) && r == rr.0
    }

    open spec fn spec_openat(
        &self,
        post: &Self,
        dirfd: i32,
        path: Seq<u8>,
        flag: i32,
        mode: u32,
        r: i32,
    ) -> bool {
        self.spec_open(post, path, flag, mode, r)
    }

    open spec fn spec_mkdir(&self, post: &Self, path: Seq<u8>, mode: u32, r: i32) -> bool {
        &&& post.spec_id() == self.spec_id()
        &&& exists|b: i32, c: Option<u64>|
            create_path_outcome(self@, post@, None, path, VfsEntryKind::Dir, mode, b, c)
                && create_backing_steps(
                self@,
                self.spec_backing(),
                post.spec_backing(),
                None,
                path,
                VfsEntryKind::Dir,
                b,
            ) && r == (if c is Some {
                0i32
            } else {
                -1i32
            })
    }

    open spec fn spec_unlink(&self, post: &Self, path: Seq<u8>, r: i32) -> bool {
        &&& post.spec_id() == self.spec_id()
        &&& post@.root == self@.root
        &&& post@.next_id == self@.next_id
        &&& (r, post@.nodes) == remove_outcome(self@, path, VfsEntryKind::File)
        &&& remove_backing_step(self@, self.spec_backing(), post.spec_backing(), path, VfsEntryKind::File)
    }

    open spec fn spec_rmdir(&self, post: &Self, path: Seq<u8>, r: i32) -> bool {
        &&& post.spec_id() == self.spec_id()
        &&& post@.root == self@.root
        &&& post@.next_id == self@.next_id
        &&& (r, post@.nodes) == remove_outcome(self@, path, VfsEntryKind::Dir)
        &&& remove_backing_step(self@, self.spec_backing(), post.spec_backing(), path, VfsEntryKind::Dir)
    }

    open spec fn spec_rename(&self, post: &Self, old_path: Seq<u8>, new_path: Seq<u8>, r: i32) -> bool {
        &&& post.spec_id() == self.spec_id()
        &&& post@.root == self@.root
        &&& post@.next_id == self@.next_id
        &&& (r, post@.nodes) == rename_outcome(self@, old_path, new_path)
        &&& rename_backing_step(self@, self.spec_backing(), post.spec_backing(), old_path, new_path)
    }

    open spec fn spec_chmod(&self, post: &Self, path: Seq<u8>, mode: u32, r: i32) -> bool {
        &&& post.spec_id() == self.spec_id()
        &&& match resolve(self@, path) {
            None => r == -1 && post@ == self@ && post.spec_backing() == self.spec_backing(),
            Some(id) => r == 0 && post@ == (FsView { nodes: with_mode(self@.nodes, id, mode), ..self@ })
                && chmod_backing_step(self@, self.spec_backing(), post.spec_backing(), id, mode),
        }
    }

    open spec fn spec_stat(&self, path: Seq<u8>, before: Stat, r: i32, after: Stat) -> bool {
        match resolve(self@, path) {
            None => r == -1 && after == before,
            Some(id) => r == 0 && self.stat_answer(id, after),
        }
    }

    open spec fn spec_open_with_handle(
        &self,
        post: &Self,
        path: Seq<u8>,
        flag: i32,
        mode: u32,
        r: OpenResult,
    ) -> bool {
        &&& post.spec_id() == self.spec_id()
        &&& exists|mid: FsView, node: Option<u64>, b: i32, o: i32|
            open_outcome(self@, mid, None, path, flag, mode, b, o, (r.fd, node))
                && open_backing_steps(
                self@,
                self.spec_backing(),
                post.spec_backing(),
                None,
                path,
                flag,
                b,
                o,
            ) && handle_outcome(mid, post@, node, r.opened)
    }

    open spec fn spec_read_dir(&self, path: Seq<u8>, r: Option<Seq<VfsDirEntry>>) -> bool {
        match resolve(self@, path) {
            None => r is None,
            Some(id) => (r is None <==> !listable(self@, id)) && (r matches Some(e) ==> lists(
                self@,
                listing_of(self@.nodes[id]),
                e,
            )),
        }
    }

    open spec fn spec_stat_opened(&self, h: u64, before: Stat, r: Option<i32>, after: Stat) -> bool {
        if self@.nodes.contains_key(h) {
            r == Some(0i32) && self.stat_answer(h, after)
        } else {
            r is None && after == before
        }
    }

    open spec fn spec_read_dir_opened(&self, h: u64, r: Option<Option<Seq<VfsDirEntry>>>) -> bool {
        if self@.nodes.contains_key(h) {
            r matches Some(l) && (l is None <==> !listable(self@, h)) && (l matches Some(e) ==> lists(
                self@,
                listing_of(self@.nodes[h]),
                e,
            ))
        } else {
            r is None
        }
    }

    open spec fn spec_open_child(
        &self,
        post: &Self,
        h: u64,
        path: Seq<u8>,
        flag: i32,
        mode: u32,
        r: Option<OpenResult>,
    ) -> bool {
        post.spec_id() == self.spec_id() && self.child_open_answer(post, h, path, flag, mode, r)
    }

    open spec fn spec_mkdir_child(&self, post: &Self, h: u64, path: Seq<u8>, mode: u32, r: Option<i32>) -> bool {
        post.spec_id() == self.spec_id() && self.child_mkdir_answer(post, h, path, mode, r)
    }

    open spec fn spec_release_opened(&self, post: &Self, h: u64) -> bool {
        &&& post.spec_id() == self.spec_id()
        &&& post@ == (FsView { nodes: release_outcome(self@.nodes, h), ..self@ })
        &&& release_backing_step(self@.nodes, self.spec_backing(), post.spec_backing(), h)
    }

    fn id(&self) -> (r: &str)
        ensures
            r@ == self.spec_id(),
    {
        self.id.as_str()
    }

    fn access(&self, path: &[u8], _mode: i32) -> (r: i32)
        ensures
            r == (if resolve(self@, path@) is Some {
                0i32
            } else {
                -1i32
            }),
    {
        let comps = components_of(path);
        match self.walk_components(&comps) {
            Some(_) => 0,
            None => -1,
        }
    }

    fn open(&mut self, path: &[u8], flags: i32, mode: u32) -> (r: i32)
        ensures
            old(self).spec_open(final(self), path@, flags, mode, r),
    {
        let o = self.open_resolved(None, path, flags, mode);
        proof {
            let (b, f) = choose|b: i32, f: i32|
                open_outcome(old(self)@, self@, None, path@, flags, mode, b, f, o)
                    && open_backing_steps(
                    old(self)@,
                    old(self).spec_backing(),
                    self.spec_backing(),
                    None,
                    path@,
                    flags,
                    b,
                    f,
                );
            assert(open_outcome(old(self)@, self@, None, path@, flags, mode, b, f, o));
        }
        o.0
    }

    fn open_with_handle(&mut self, path: &[u8], flags: i32, mode: u32) -> (r: OpenResult)
        ensures
            old(self).spec_open_with_handle(final(self), path@, flags, mode, r),
    {
        let (fd, node) = self.open_resolved(None, path, flags, mode);
        let ghost mid = self@;
        let ghost (b, o) = choose|b: i32, o: i32|
            open_outcome(old(self)@, mid, None, path@, flags, mode, b, o, (fd, node))
                && open_backing_steps(
                old(self)@,
                old(self).spec_backing(),
                self.spec_backing(),
                None,
                path@,
                flags,
                b,
                o,
            );
        let opened = match node {
            Some(id) => {
                if self.take_handle(id) {
                    Some(id)
                } else {
                    None
                }
            },
            None => None,
        };
        assert(handle_outcome(mid, self@, node, opened));
        assert(open_outcome(old(self)@, mid, None, path@, flags, mode, b, o, (fd, node)));
        assert(open_backing_steps(
            old(self)@,
            old(self).spec_backing(),
            self.spec_backing(),
            None,
            path@,
            flags,
            b,
            o,
        ));
        let r = OpenResult { fd, opened };
        assert(r.fd == fd && r.opened == opened);
        assert(handle_outcome(mid, self@, node, r.opened));
        assert(self.spec_id() == old(self).spec_id());
        assert(old(self).spec_open_with_handle(&*self, path@, flags, mode, r));
        r
    }

    fn openat(&mut self, _dirfd: i32, path: &[u8], flags: i32, mode: u32) -> (r: i32)
        ensures
            old(self).spec_open(final(self), path@, flags, mode, r),
    {
        self.open(path, flags, mode)
    }

    fn mkdir(&mut self, path: &[u8], mode: u32) -> (r: i32)
        ensures
            old(self).spec_mkdir(final(self), path@, mode, r),
    {
        match self.create_path(None, path, VfsEntryKind::Dir, mode) {
            Some(_) => 0,
            None => -1,
        }
    }

    fn unlink(&mut self, path: &[u8]) -> (r: i32)
        ensures
            final(self).spec_id() == old(self).spec_id(),
            final(self)@.root == old(self)@.root,
            final(self)@.next_id == old(self)@.next_id,
            (r, final(self)@.nodes) == remove_outcome(old(self)@, path@, VfsEntryKind::File),
            old(self).spec_unlink(final(self), path@, r),
    {
        self.remove_node_at(path, VfsEntryKind::File)
    }

    fn rmdir(&mut self, path: &[u8]) -> (r: i32)
        ensures
            final(self).spec_id() == old(self).spec_id(),
            final(self)@.root == old(self)@.root,
            final(self)@.next_id == old(self)@.next_id,
            (r, final(self)@.nodes) == remove_outcome(old(self)@, path@, VfsEntryKind::Dir),
            old(self).spec_rmdir(final(self), path@, r),
    {
        self.remove_node_at(path, VfsEntryKind::Dir)
    }

    fn rename(&mut self, old_path: &[u8], new_path: &[u8]) -> (r: i32)
        ensures
            final(self).spec_id() == old(self).spec_id(),
            final(self)@.root == old(self)@.root,
            final(self)@.next_id == old(self)@.next_id,
            (r, final(self)@.nodes) == rename_outcome(old(self)@, old_path@, new_path@),
            old(self).spec_rename(final(self), old_path@, new_path@, r),
    {
        self.rename_node_at(old_path, new_path)
    }

    fn chmod(&mut self, path: &[u8], mode: u32) -> (r: i32)
        ensures
            final(self).spec_id() == old(self).spec_id(),
            old(self).spec_chmod(final(self), path@, mode, r),
    {
        let comps = components_of(path);
        match self.walk_components(&comps) {
            Some(id) => {
                self.chmod_node(id, mode);
                0
            },
            None => -1,
        }
    }

    fn stat(&self, path: &[u8], statbuf: &mut Stat) -> (r: i32)
        ensures
            resolve(self@, path@) is None ==> r == -1 && *final(statbuf) == *old(statbuf),
            resolve(self@, path@) matches Some(id) ==> r == 0 && self.stat_answer(id, *final(statbuf)),
    {
        let comps = components_of(path);
        match self.walk_components(&comps) {
            Some(id) => self.stat_node(id, statbuf),
            None => -1,
        }
    }

    fn read_dir(&self, path: &[u8]) -> (r: Option<Vec<VfsDirEntry>>)
        ensures
            resolve(self@, path@) is None ==> r is None,
            resolve(self@, path@) matches Some(id) ==> (r is None <==> !listable(self@, id)) && (
            r matches Some(e) ==> lists(self@, listing_of(self@.nodes[id]), e@)),
    {
        let comps = components_of(path);
        match self.walk_components(&comps) {
            Some(id) => self.read_node_dir(id),
            None => None,
        }
    }

    fn stat_opened(&self, h: u64, statbuf: &mut Stat) -> (r: Option<i32>) {
        if self.nodes.contains_key(&h) {
            Some(self.handle_stat(h, statbuf))
        } else {
            None
        }
    }

    fn read_dir_opened(&self, h: u64) -> (r: Option<Option<Vec<VfsDirEntry>>>) {
        if self.nodes.contains_key(&h) {
            Some(self.handle_read_dir(h))
        } else {
            None
        }
    }

    fn open_child(&mut self, h: u64, path: &[u8], flag: i32, mode: u32) -> (r: Option<OpenResult>) {
        self.handle_open_child(h, path, flag, mode)
    }

    fn mkdir_child(&mut self, h: u64, path: &[u8], mode: u32) -> (r: Option<i32>) {
        self.handle_mkdir_child(h, path, mode)
    }

    fn release_opened(&mut self, h: u64) {
        self.release_handle(h)
    }
}

/// A backing that hands out counting descriptor numbers and keeps no kernel
/// objects: new objects are numbered from 10000, opened ones from 20000.
#[derive(Debug)]
pub struct CountingBacking {
    next_object: i32,
    next_open: i32,
    opens: Vec<(i32, i32)>,
    releases: Vec<i32>,
}

impl CountingBacking {
    pub fn new() -> (r: Self)
        ensures
            r.next_object() == 10000,
            r.next_open() == 20000,
            r.spec_opens() == Seq::<(i32, i32)>::empty(),
            r.spec_releases() == Seq::<i32>::empty(),
    {
        CountingBacking { next_object: 10000, next_open: 20000, opens: Vec::new(), releases: Vec::new() }
    }

    /// The backing object and flags of every open so far, in order.
    pub closed spec fn spec_opens(&self) -> Seq<(i32, i32)> {
        self.opens@
    }

    /// The objects released so far, in order.
    pub closed spec fn spec_releases(&self) -> Seq<i32> {
        self.releases@
    }

    /// The objects released so far, in order.
    pub fn released_objects(&self) -> (r: &Vec<i32>)
        ensures
            r@ == self.spec_releases(),
    {
        &self.releases
    }

    /// The backing object and flags of every open so far, in order.
    pub fn opened_objects(&self) -> (r: &Vec<(i32, i32)>)
        ensures
            r@ == self.spec_opens(),
    {
        &self.opens
    }

    pub closed spec fn next_object(&self) -> i32 {
        self.next_object
    }

    pub closed spec fn next_open(&self) -> i32 {
        self.next_open
    }
}

impl NodeBacking for CountingBacking {
    open spec fn spec_create(&self, post: &Self, kind: VfsEntryKind, r: i32) -> bool {
        &&& r == self.next_object()
        &&& post.next_object() == self.next_object().wrapping_add(1)
        &&& post.next_open() == self.next_open()
        &&& post.spec_opens() == self.spec_opens()
        &&& post.spec_releases() == self.spec_releases()
    }

    open spec fn spec_open(&self, post: &Self, backing_fd: i32, flags: i32, r: i32) -> bool {
        &&& r == self.next_open()
        &&& post.next_open() == self.next_open().wrapping_add(1)
        &&& post.next_object() == self.next_object()
        &&& post.spec_opens() == self.spec_opens().push((backing_fd, flags))
        &&& post.spec_releases() == self.spec_releases()
    }

    open spec fn spec_chmod(&self, post: &Self, backing_fd: i32, mode: u32) -> bool {
        *post == *self
    }

    open spec fn spec_release(&self, post: &Self, backing_fd: i32) -> bool {
        &&& post.next_object() == self.next_object()
        &&& post.next_open() == self.next_open()
        &&& post.spec_opens() == self.spec_opens()
        &&& post.spec_releases() == self.spec_releases().push(backing_fd)
    }

    fn create_backing(&mut self, _kind: VfsEntryKind) -> (r: i32)
        ensures
            r == old(self).next_object(),
            final(self).next_object() == old(self).next_object().wrapping_add(1),
            final(self).next_open() == old(self).next_open(),
            final(self).spec_opens() == old(self).spec_opens(),
    {
        let r = self.next_object;
        self.next_object = self.next_object.wrapping_add(1);
        r
    }

    fn open_backing(&mut self, backing_fd: i32, flags: i32) -> (r: i32)
        ensures
            r == old(self).next_open(),
            final(self).next_open() == old(self).next_open().wrapping_add(1),
            final(self).next_object() == old(self).next_object(),
            final(self).spec_opens() == old(self).spec_opens().push((backing_fd, flags)),
    {
        let r = self.next_open;
        self.next_open = self.next_open.wrapping_add(1);
        self.opens.push((backing_fd, flags));
        r
    }

    fn stat_backing(&self, _backing_fd: i32, _statbuf: &mut Stat)
        ensures
            *final(_statbuf) == *old(_statbuf),
    {
    }

    fn chmod_backing(&mut self, _backing_fd: i32, _mode: u32)
        ensures
            *final(self) == *old(self),
    {
    }

    fn release_backing(&mut self, backing_fd: i32)
        ensures
            final(self).spec_releases() == old(self).spec_releases().push(backing_fd),
    {
        self.releases.push(backing_fd);
    }
}

} // verus!
