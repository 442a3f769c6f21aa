//! Laws of the in-memory namespace: what one operation leaves for the next.
//!
//! Each law is stated over the views that the operations' own contracts
//! use, so it applies to every sequence of calls that those contracts admit.
use vstd::prelude::*;

use super::dir_entries::{
    entry_map, has_name, lemma_entry_map_insert, lemma_entry_map_remove, lemma_sorted_remove,
    listing_insert, listing_remove, sorted,
};
use super::memory::{
    bind, can_create_in, can_replace, child_of, create_outcome, create_path_outcome, cross_move,
    detach, fresh_node, is_dir_node, is_dir_view, kind_matches, kind_of, listable, listing_of, lists,
    backing_flags, backing_of, open_backing_steps, open_outcome, parent_from, present, release_outcome, remove_outcome, rename_outcome, resolve,
    resolve_parent, same_dir_move, stat_of, unbind, view_wf, with_mode, FsView, NodeView,
};
use crate::filesystem::{NodeBacking, Stat, VfsDirEntry};
use crate::sys::{O_APPEND, O_CREAT, O_DIRECTORY, O_EXCL, O_NOFOLLOW, O_TRUNC, S_IFDIR, S_IFREG};
use crate::filesystem::VfsEntryKind;
use crate::path::{components, is_normal};

verus! {

/// One step of a walk: where the first `j + 1` components lead, from where
/// the first `j` lead.
proof fn lemma_walk_step(v: FsView, c: Seq<Seq<u8>>, j: int)
    requires
        0 <= j < c.len(),
    ensures
        walk_to(v, c, j + 1) == match walk_to(v, c, j) {
            None => None,
            Some(x) => if is_normal(c[j]) {
                child_of(v, x, c[j])
            } else {
                Some(x)
            },
        },
{
    assert(c.subrange(0, j + 1).drop_last() =~= c.subrange(0, j));
    assert(c.subrange(0, j + 1).last() == c[j]);
}

/// Where the first `j` components of `c` lead from the root.
pub open spec fn walk_to(v: FsView, c: Seq<Seq<u8>>, j: int) -> Option<u64> {
    super::memory::walk(v, c.subrange(0, j))
}

proof fn lemma_walk_to_all(v: FsView, c: Seq<Seq<u8>>)
    ensures
        walk_to(v, c, c.len() as int) == super::memory::walk(v, c),
{
    assert(c.subrange(0, c.len() as int) =~= c);
}

/// A walk that arrives passed through every prefix.
proof fn lemma_walk_prefix(v: FsView, c: Seq<Seq<u8>>, j: int, n: int)
    requires
        0 <= j <= n <= c.len(),
        walk_to(v, c, n) is Some,
    ensures
        walk_to(v, c, j) is Some,
    decreases n - j,
{
    if j < n {
        lemma_walk_step(v, c, n - 1);
        lemma_walk_prefix(v, c, j, n - 1);
    }
}

/// Every node a walk reaches is in the namespace.
proof fn lemma_walk_present(v: FsView, c: Seq<Seq<u8>>, j: int)
    requires
        0 <= j <= c.len(),
        walk_to(v, c, j) is Some,
    ensures
        present(v, walk_to(v, c, j).unwrap()),
    decreases j,
{
    if j > 0 {
        lemma_walk_step(v, c, j - 1);
        lemma_walk_present(v, c, j - 1);
    } else {
        assert(c.subrange(0, 0) =~= Seq::<Seq<u8>>::empty());
    }
}

/// When a walk ends at a directory, every node it passes is a directory.
proof fn lemma_walk_dirs(v: FsView, c: Seq<Seq<u8>>, j: int, n: int)
    requires
        0 <= j <= n <= c.len(),
        walk_to(v, c, n) matches Some(z) && is_dir_node(v, z),
    ensures
        walk_to(v, c, j) matches Some(x) && is_dir_node(v, x),
    decreases n - j,
{
    if j < n {
        lemma_walk_dirs(v, c, j + 1, n);
        lemma_walk_step(v, c, j);
    }
}

/// A walk that reaches a directory with no entries stays there.
proof fn lemma_walk_stays_in_empty(v: FsView, c: Seq<Seq<u8>>, j: int, n: int, e: u64)
    requires
        0 <= j <= n <= c.len(),
        walk_to(v, c, j) == Some(e),
        listing_of(v.nodes[e]).len() == 0,
        walk_to(v, c, n) is Some,
    ensures
        walk_to(v, c, n) == Some(e),
    decreases n - j,
{
    if j < n {
        lemma_walk_step(v, c, j);
        lemma_walk_prefix(v, c, j + 1, n);
        if is_normal(c[j]) {
            assert(!has_name(listing_of(v.nodes[e]), c[j]));
            assert(!entry_map(listing_of(v.nodes[e])).contains_key(c[j]));
        }
        lemma_walk_stays_in_empty(v, c, j + 1, n, e);
    }
}

/// Step `j` of walking `c` in `v` is taken alike in `w`.
pub open spec fn step_kept(v: FsView, w: FsView, c: Seq<Seq<u8>>, j: int) -> bool {
    match walk_to(v, c, j) {
        Some(x) => is_normal(c[j]) && child_of(v, x, c[j]) is Some ==> child_of(w, x, c[j])
            == child_of(v, x, c[j]),
        None => true,
    }
}

/// A walk is unchanged when each of its steps is.
proof fn lemma_walk_stable(v: FsView, w: FsView, c: Seq<Seq<u8>>, n: int)
    requires
        0 <= n <= c.len(),
        walk_to(v, c, n) is Some,
        w.root == v.root,
        present(w, v.root),
        forall|j: int| 0 <= j < n ==> #[trigger] step_kept(v, w, c, j),
    ensures
        walk_to(w, c, n) == walk_to(v, c, n),
    decreases n,
{
    if n == 0 {
        assert(c.subrange(0, 0) =~= Seq::<Seq<u8>>::empty());
    } else {
        lemma_walk_step(v, c, n - 1);
        lemma_walk_step(w, c, n - 1);
        lemma_walk_prefix(v, c, n - 1, n);
        lemma_walk_stable(v, w, c, n - 1);
        assert(step_kept(v, w, c, n - 1));
    }
}

/// Creating a node changes no lookup that found something.
proof fn lemma_create_keeps(
    pre: FsView,
    post: FsView,
    d: u64,
    name: Seq<u8>,
    kind: VfsEntryKind,
    mode: u32,
    b: i32,
    id: u64,
)
    requires
        view_wf(pre),
        view_wf(post),
        can_create_in(pre, d, name),
        id == pre.next_id,
        post.root == pre.root,
        post.nodes == bind(
            pre.nodes.insert(id, fresh_node(d, mode, kind, b)),
            d,
            name,
            id,
        ),
    ensures
        present(post, pre.root),
        forall|x: u64, nm: Seq<u8>|
            child_of(pre, x, nm) is Some ==> #[trigger] child_of(post, x, nm) == child_of(pre, x, nm),
{
    let n1 = pre.nodes.insert(id, fresh_node(d, mode, kind, b));
    assert(!pre.nodes.contains_key(id));
    assert(n1[d] == pre.nodes[d]);
    let l = listing_of(pre.nodes[d]);
    assert(listing_of(post.nodes[d]) == listing_insert(l, name, id));
    assert(post.nodes.contains_key(d));
    lemma_entry_map_insert(l, name, id);
    assert forall|x: u64, nm: Seq<u8>| child_of(pre, x, nm) is Some implies #[trigger] child_of(
        post,
        x,
        nm,
    ) == child_of(pre, x, nm) by {
        let m = entry_map(listing_of(pre.nodes[x]));
        let y = m[nm];
        assert(pre.nodes.contains_key(x));
        assert(pre.nodes.contains_key(y));
        if x == d {
            assert(nm != name);
        }
        if y == d {
            assert(post.nodes[y].links == pre.nodes[y].links);
        }
    }
}

/// Law: after a creation that succeeds (`mkdir`, or `open` with `O_CREAT`),
/// the created path names the new node, of the kind asked for, and every
/// path that named a node before still names the same node.
pub proof fn law_created_path_names_new_node(
    pre: FsView,
    post: FsView,
    p: Seq<u8>,
    kind: VfsEntryKind,
    mode: u32,
    b: i32,
    id: u64,
)
    requires
        view_wf(pre),
        view_wf(post),
        create_path_outcome(pre, post, None, p, kind, mode, b, Some(id)),
    ensures
        resolve(post, p) == Some(id),
        kind_of(post.nodes[id]) == kind,
        forall|q: Seq<u8>| #[trigger] resolve(pre, q) is Some ==> resolve(post, q) == resolve(pre, q),
{
    let c = components(p);
    let (d, name) = parent_from(pre, None, p).unwrap();
    let c1 = c.drop_last();
    assert(create_outcome(pre, post, d, name, kind, mode, b, Some(id)));
    lemma_create_keeps(pre, post, d, name, kind, mode, b, id);
    assert forall|q: Seq<u8>| #[trigger] resolve(pre, q) is Some implies resolve(post, q) == resolve(
        pre,
        q,
    ) by {
        let cq = components(q);
        lemma_walk_to_all(pre, cq);
        lemma_walk_to_all(post, cq);
        assert forall|j: int| 0 <= j < cq.len() implies #[trigger] step_kept(pre, post, cq, j) by {}
        lemma_walk_stable(pre, post, cq, cq.len() as int);
    }
    lemma_walk_to_all(pre, c1);
    lemma_walk_to_all(post, c1);
    assert forall|j: int| 0 <= j < c1.len() implies #[trigger] step_kept(pre, post, c1, j) by {}
    lemma_walk_stable(pre, post, c1, c1.len() as int);
    assert(c1 == c.drop_last());
    let l = listing_of(pre.nodes[d]);
    assert(listing_of(post.nodes[d]) == listing_insert(l, name, id));
    assert(post.nodes.contains_key(d));
    assert(sorted(listing_of(post.nodes[d])));
    assert(pre.nodes.contains_key(d));
    assert(sorted(l));
    lemma_entry_map_insert(l, name, id);
    assert(post.nodes.contains_key(id));
    assert(post.nodes[id].links == 1);
}

/// Law: after `unlink` (`File`) or `rmdir` (`Dir`) of a path succeeds, the
/// path names nothing.
pub proof fn law_removed_path_names_nothing(
    pre: FsView,
    post: FsView,
    p: Seq<u8>,
    kind: VfsEntryKind,
)
    requires
        view_wf(pre),
        post.root == pre.root,
        remove_outcome(pre, p, kind) == (0i32, post.nodes),
    ensures
        resolve(post, p) is None,
{
    let c = components(p);
    let (d, name) = resolve_parent(pre, p).unwrap();
    let c1 = c.drop_last();
    let len1 = c1.len() as int;
    let l = listing_of(pre.nodes[d]);
    let m = entry_map(l);
    let id = m[name];
    assert(is_dir_node(pre, d));
    assert(m.contains_key(name));
    assert(present(pre, id));
    assert(kind_matches(pre.nodes[id], kind));
    assert(post.nodes == detach(unbind(pre.nodes, d, name), id));
    lemma_walk_to_all(pre, c1);
    assert(walk_to(pre, c1, len1) == Some(d));
    assert(has_name(l, name));
    assert(l.len() > 0);
    assert(d != id);
    let i = super::dir_entries::index_of(l, name);
    assert(l[i].1 == id);
    assert(id != pre.root);
    assert forall|j: int| 0 <= j < len1 implies #[trigger] step_kept(pre, post, c1, j) by {
        lemma_walk_prefix(pre, c1, j, len1);
        lemma_walk_step(pre, c1, j);
        let x = walk_to(pre, c1, j).unwrap();
        if is_normal(c1[j]) && child_of(pre, x, c1[j]) is Some {
            let y = child_of(pre, x, c1[j]).unwrap();
            lemma_walk_dirs(pre, c1, j, len1);
            lemma_walk_dirs(pre, c1, j + 1, len1);
            if kind == VfsEntryKind::Dir {
                if y == id {
                    lemma_walk_stays_in_empty(pre, c1, j + 1, len1, id);
                }
                if x == id {
                    lemma_walk_stays_in_empty(pre, c1, j, len1, id);
                }
            }
            assert(x != id);
            assert(y != id);
            if x == d {
                lemma_sorted_remove(l, name);
                lemma_entry_map_remove(l, name);
                assert(c1[j] != name);
            }
        }
    }
    assert(present(post, pre.root));
    lemma_walk_stable(pre, post, c1, len1);
    lemma_walk_step(post, c, c.len() - 1);
    assert(c.subrange(0, c.len() - 1) =~= c1.subrange(0, len1));
    lemma_walk_to_all(post, c);
    lemma_sorted_remove(l, name);
    lemma_entry_map_remove(l, name);
    assert(listing_of(post.nodes[d]) == listing_remove(l, name));
}

/// The entry-level effect of a successful move of the entry `on` of `op`
/// to `nn` of `np`: lookups that touch neither the moved node nor the
/// replaced one are unchanged, the new entry names the moved node, and the
/// old one nothing.
proof fn lemma_move_keeps(
    pre: FsView,
    post: FsView,
    op: u64,
    on: Seq<u8>,
    np: u64,
    nn: Seq<u8>,
    oid: u64,
    rid: Option<u64>,
)
    requires
        view_wf(pre),
        view_wf(post),
        post.root == pre.root,
        is_dir_node(pre, op),
        is_dir_node(pre, np),
        entry_map(listing_of(pre.nodes[op])).contains_key(on),
        entry_map(listing_of(pre.nodes[op]))[on] == oid,
        present(pre, oid),
        rid == (if entry_map(listing_of(pre.nodes[np])).contains_key(nn) {
            Some(entry_map(listing_of(pre.nodes[np]))[nn])
        } else {
            None
        }),
        rid != Some(oid),
        rid matches Some(r) ==> present(pre, r) && can_replace(pre.nodes[oid], pre.nodes[r]),
        post.nodes == (if op == np {
            same_dir_move(pre.nodes, op, on, nn, oid, rid)
        } else {
            cross_move(pre.nodes, op, on, np, nn, oid, rid)
        }),
    ensures
        present(post, pre.root),
        forall|x: u64, s: Seq<u8>|
            child_of(pre, x, s) is Some && x != oid && child_of(pre, x, s).unwrap() != oid
                && rid != Some(x) && rid != Some(child_of(pre, x, s).unwrap()) ==> #[trigger] child_of(
                post,
                x,
                s,
            ) == child_of(pre, x, s),
        child_of(post, np, nn) == Some(oid),
        child_of(post, op, on) is None,
{
    let lo = listing_of(pre.nodes[op]);
    let ln = listing_of(pre.nodes[np]);
    let mo = entry_map(lo);
    let mn = entry_map(ln);
    assert(pre.nodes.contains_key(op));
    assert(pre.nodes.contains_key(np));
    assert(pre.nodes.contains_key(oid));
    assert(sorted(lo));
    assert(sorted(ln));
    let i = super::dir_entries::index_of(lo, on);
    assert(lo[i].1 == oid);
    assert(oid != pre.root);
    assert(lo.len() > 0);
    if let Some(r) = rid {
        let k = super::dir_entries::index_of(ln, nn);
        assert(ln[k].1 == r);
        assert(r != pre.root);
        assert(pre.nodes.contains_key(r));
        assert(ln.len() > 0);
        assert(r != np);
        assert(r != op);
    }
    lemma_sorted_remove(lo, on);
    lemma_entry_map_remove(lo, on);
    if op == np {
        let l1 = listing_remove(lo, on);
        assert(post.nodes.contains_key(op));
        assert(listing_of(post.nodes[op]) == listing_insert(l1, nn, oid));
        assert(sorted(listing_of(post.nodes[op])));
        lemma_entry_map_insert(l1, nn, oid);
        assert(on != nn);
    } else {
        assert(post.nodes.contains_key(np));
        assert(listing_of(post.nodes[np]) == listing_insert(ln, nn, oid));
        assert(sorted(listing_of(post.nodes[np])));
        lemma_entry_map_insert(ln, nn, oid);
        assert(listing_of(post.nodes[op]) == listing_remove(lo, on));
    }
    assert(post.nodes.contains_key(oid));
    assert(post.nodes[oid].links == pre.nodes[oid].links);
    assert(is_dir_node(post, np));
    assert forall|x: u64, s: Seq<u8>|
        child_of(pre, x, s) is Some && x != oid && child_of(pre, x, s).unwrap() != oid && rid != Some(
            x,
        ) && rid != Some(child_of(pre, x, s).unwrap()) implies #[trigger] child_of(post, x, s)
        == child_of(pre, x, s) by {
        let y = child_of(pre, x, s).unwrap();
        assert(pre.nodes.contains_key(x));
        assert(pre.nodes.contains_key(y));
        if x == op {
            assert(s != on);
        }
        if x == np {
            assert(s != nn);
        }
        assert(post.nodes.contains_key(y));
        assert(post.nodes[y].links == pre.nodes[y].links);
        assert(post.nodes.contains_key(x));
        assert(is_dir_view(post.nodes[x]));
    }
}

/// Law: after `rename(a, b)` of a file succeeds, `b` names the node that `a`
/// named; and, unless `b` named that node already, `a` names nothing.
pub proof fn law_renamed_file_keeps_its_node(
    pre: FsView,
    post: FsView,
    a: Seq<u8>,
    b: Seq<u8>,
    id: u64,
)
    requires
        view_wf(pre),
        view_wf(post),
        post.root == pre.root,
        rename_outcome(pre, a, b) == (0i32, post.nodes),
        resolve(pre, a) == Some(id),
        !is_dir_node(pre, id),
    ensures
        resolve(post, b) == Some(id),
        resolve(pre, b) != Some(id) ==> resolve(post, a) is None,
{
    let ca = components(a);
    let cb = components(b);
    lemma_walk_to_all(pre, ca);
    lemma_walk_to_all(pre, cb);
    lemma_walk_to_all(post, ca);
    lemma_walk_to_all(post, cb);
    if crate::path::path_eq(a, b) {
        assert(post.nodes == pre.nodes);
        assert(present(post, pre.root)) by {
            lemma_walk_present(pre, ca, 0);
            assert(ca.subrange(0, 0) =~= Seq::<Seq<u8>>::empty());
        }
        assert forall|j: int| 0 <= j < cb.len() implies #[trigger] step_kept(pre, post, cb, j) by {}
        lemma_walk_stable(pre, post, cb, cb.len() as int);
        return;
    }
    let (op, on) = resolve_parent(pre, a).unwrap();
    let (np, nn) = resolve_parent(pre, b).unwrap();
    let lo = listing_of(pre.nodes[op]);
    let ln = listing_of(pre.nodes[np]);
    let mo = entry_map(lo);
    let mn = entry_map(ln);
    let ca1 = ca.drop_last();
    let cb1 = cb.drop_last();
    lemma_walk_to_all(pre, ca1);
    lemma_walk_to_all(pre, cb1);
    lemma_walk_step(pre, ca, ca.len() - 1);
    assert(ca.subrange(0, ca.len() - 1) =~= ca1.subrange(0, ca1.len() as int));
    assert(mo.contains_key(on) && mo[on] == id);
    if mn.contains_key(nn) && mn[nn] == id {
        assert(post.nodes == pre.nodes);
        lemma_walk_step(pre, cb, cb.len() - 1);
        assert(cb.subrange(0, cb.len() - 1) =~= cb1.subrange(0, cb1.len() as int));
        assert(present(post, pre.root)) by {
            lemma_walk_present(pre, ca, 0);
            assert(ca.subrange(0, 0) =~= Seq::<Seq<u8>>::empty());
        }
        assert forall|j: int| 0 <= j < cb.len() implies #[trigger] step_kept(pre, post, cb, j) by {}
        lemma_walk_stable(pre, post, cb, cb.len() as int);
        return;
    }
    let rid = if mn.contains_key(nn) {
        Some(mn[nn])
    } else {
        None
    };
    lemma_move_keeps(pre, post, op, on, np, nn, id, rid);
    assert forall|j: int| 0 <= j < cb1.len() implies #[trigger] step_kept(pre, post, cb1, j) by {
        lemma_walk_prefix(pre, cb1, j, cb1.len() as int);
        lemma_walk_step(pre, cb1, j);
        lemma_walk_dirs(pre, cb1, j, cb1.len() as int);
        lemma_walk_dirs(pre, cb1, j + 1, cb1.len() as int);
    }
    lemma_walk_stable(pre, post, cb1, cb1.len() as int);
    lemma_walk_step(post, cb, cb.len() - 1);
    assert(cb.subrange(0, cb.len() - 1) =~= cb1.subrange(0, cb1.len() as int));
    lemma_walk_step(pre, cb, cb.len() - 1);
    assert forall|j: int| 0 <= j < ca1.len() implies #[trigger] step_kept(pre, post, ca1, j) by {
        lemma_walk_prefix(pre, ca1, j, ca1.len() as int);
        lemma_walk_step(pre, ca1, j);
        lemma_walk_dirs(pre, ca1, j, ca1.len() as int);
        lemma_walk_dirs(pre, ca1, j + 1, ca1.len() as int);
    }
    lemma_walk_stable(pre, post, ca1, ca1.len() as int);
    lemma_walk_step(post, ca, ca.len() - 1);
}

/// Law: after `rename(a, b)` of a directory succeeds, `b` names the
/// directory that `a` named, provided the walk to the parent of `b` does not
/// pass through that directory.
pub proof fn law_renamed_dir_keeps_its_node(
    pre: FsView,
    post: FsView,
    a: Seq<u8>,
    b: Seq<u8>,
    id: u64,
)
    requires
        view_wf(pre),
        view_wf(post),
        post.root == pre.root,
        rename_outcome(pre, a, b) == (0i32, post.nodes),
        resolve(pre, a) == Some(id),
        is_dir_node(pre, id),
        forall|j: int| 0 <= j < components(b).len() ==> walk_to(pre, components(b), j) != Some(id),
    ensures
        resolve(post, b) == Some(id),
{
    let ca = components(a);
    let cb = components(b);
    lemma_walk_to_all(pre, ca);
    lemma_walk_to_all(pre, cb);
    lemma_walk_to_all(post, cb);
    assert(present(pre, pre.root)) by {
        lemma_walk_present(pre, ca, 0);
        assert(ca.subrange(0, 0) =~= Seq::<Seq<u8>>::empty());
    }
    if crate::path::path_eq(a, b) {
        assert(post.nodes == pre.nodes);
        assert forall|j: int| 0 <= j < cb.len() implies #[trigger] step_kept(pre, post, cb, j) by {}
        lemma_walk_stable(pre, post, cb, cb.len() as int);
        return;
    }
    let (op, on) = resolve_parent(pre, a).unwrap();
    let (np, nn) = resolve_parent(pre, b).unwrap();
    let ln = listing_of(pre.nodes[np]);
    let mn = entry_map(ln);
    let ca1 = ca.drop_last();
    let cb1 = cb.drop_last();
    let len1 = cb1.len() as int;
    lemma_walk_to_all(pre, ca1);
    lemma_walk_to_all(pre, cb1);
    lemma_walk_step(pre, ca, ca.len() - 1);
    assert(ca.subrange(0, ca.len() - 1) =~= ca1.subrange(0, ca1.len() as int));
    lemma_walk_step(pre, cb, cb.len() - 1);
    assert(cb.subrange(0, cb.len() - 1) =~= cb1.subrange(0, len1));
    if mn.contains_key(nn) && mn[nn] == id {
        assert(post.nodes == pre.nodes);
        assert forall|j: int| 0 <= j < cb.len() implies #[trigger] step_kept(pre, post, cb, j) by {}
        lemma_walk_stable(pre, post, cb, cb.len() as int);
        return;
    }
    let rid = if mn.contains_key(nn) {
        Some(mn[nn])
    } else {
        None
    };
    lemma_move_keeps(pre, post, op, on, np, nn, id, rid);
    assert forall|j: int| 0 <= j < len1 implies #[trigger] step_kept(pre, post, cb1, j) by {
        lemma_walk_prefix(pre, cb1, j, len1);
        lemma_walk_step(pre, cb1, j);
        let x = walk_to(pre, cb1, j).unwrap();
        assert(cb1.subrange(0, j) =~= cb.subrange(0, j));
        assert(cb1.subrange(0, j + 1) =~= cb.subrange(0, j + 1));
        assert(walk_to(pre, cb, j) != Some(id));
        assert(walk_to(pre, cb, j + 1) != Some(id));
        if let Some(r) = rid {
            if is_normal(cb1[j]) && child_of(pre, x, cb1[j]) is Some {
                let y = child_of(pre, x, cb1[j]).unwrap();
                lemma_walk_dirs(pre, cb1, j, len1);
                lemma_walk_dirs(pre, cb1, j + 1, len1);
                assert(pre.nodes.contains_key(r));
                if y == r {
                    lemma_walk_stays_in_empty(pre, cb1, j + 1, len1, r);
                    let k = super::dir_entries::index_of(ln, nn);
                    assert(ln[k].1 == r);
                }
                if x == r {
                    lemma_walk_stays_in_empty(pre, cb1, j, len1, r);
                    let k = super::dir_entries::index_of(ln, nn);
                    assert(ln[k].1 == r);
                }
            }
        }
    }
    lemma_walk_stable(pre, post, cb1, len1);
    lemma_walk_step(post, cb, cb.len() - 1);
}

/// Law: after `rename(a, b)` succeeds over a node that `b` named, that
/// node is out of the namespace: it is gone when no handle held it, and
/// otherwise it stays, without links, for its handles, and `stat` through
/// them reports a link count of 0.
pub proof fn law_renamed_over_node_is_dropped(
    pre: FsView,
    post: FsView,
    a: Seq<u8>,
    b: Seq<u8>,
    rid: u64,
)
    requires
        view_wf(pre),
        rename_outcome(pre, a, b) == (0i32, post.nodes),
        super::memory::rename_replaced(pre, a, b) == Some(rid),
    ensures
        !present(post, rid),
        pre.nodes[rid].handles == 0 ==> !post.nodes.contains_key(rid),
        pre.nodes[rid].handles > 0 ==> post.nodes.contains_key(rid) && post.nodes[rid] == (NodeView {
            parent: None,
            links: 0,
            ..pre.nodes[rid]
        }) && super::memory::nlink_of(post, rid) == 0,
{
    let (op, on) = resolve_parent(pre, a).unwrap();
    let (np, nn) = resolve_parent(pre, b).unwrap();
    let lo = listing_of(pre.nodes[op]);
    let ln = listing_of(pre.nodes[np]);
    let oid = entry_map(lo)[on];
    assert(pre.nodes.contains_key(op));
    assert(pre.nodes.contains_key(np));
    let i = super::dir_entries::index_of(lo, on);
    assert(lo[i].1 == oid);
    let k = super::dir_entries::index_of(ln, nn);
    assert(ln[k].1 == rid);
    assert(lo.len() > 0);
    assert(ln.len() > 0);
    assert(rid != oid);
    assert(rid != np);
    assert(rid != op);
}

/// Law: a node that an opened handle holds stays through every `unlink`,
/// `rmdir` and `rename`, with its handles, its backing object and its kind,
/// so that what a descriptor opened is what its handle keeps naming.
pub proof fn law_held_node_stays(
    pre: FsView,
    id: u64,
    p: Seq<u8>,
    kind: VfsEntryKind,
    a: Seq<u8>,
    b: Seq<u8>,
)
    requires
        view_wf(pre),
        pre.nodes.contains_key(id),
        pre.nodes[id].handles > 0,
    ensures
        remove_outcome(pre, p, kind).1.contains_key(id),
        remove_outcome(pre, p, kind).1[id].handles == pre.nodes[id].handles,
        backing_of(remove_outcome(pre, p, kind).1[id]) == backing_of(pre.nodes[id]),
        is_dir_view(remove_outcome(pre, p, kind).1[id]) == is_dir_view(pre.nodes[id]),
        rename_outcome(pre, a, b).1.contains_key(id),
        rename_outcome(pre, a, b).1[id].handles == pre.nodes[id].handles,
        backing_of(rename_outcome(pre, a, b).1[id]) == backing_of(pre.nodes[id]),
        is_dir_view(rename_outcome(pre, a, b).1[id]) == is_dir_view(pre.nodes[id]),
{
}

/// Law: each entry that `read_dir` lists for a directory is found by
/// walking from that directory's path to the entry's name, and it leads to
/// the node whose inode number the entry shows, the number `stat` reports.
pub proof fn law_listed_entry_is_found_by_name(
    v: FsView,
    p: Seq<u8>,
    q: Seq<u8>,
    d: u64,
    e: Seq<VfsDirEntry>,
    i: int,
)
    requires
        view_wf(v),
        resolve(v, p) == Some(d),
        listable(v, d),
        lists(v, listing_of(v.nodes[d]), e),
        0 <= i < e.len(),
        components(q) == components(p).push(e[i].name@),
    ensures
        e[i].ino is Some,
        resolve(v, q) == e[i].ino,
        forall|s: Stat| stat_of(v, e[i].ino.unwrap(), s) ==> s.st_ino == e[i].ino.unwrap(),
{
    let l = listing_of(v.nodes[d]);
    let c = components(p);
    let cq = components(q);
    assert(v.nodes.contains_key(d));
    super::dir_entries::lemma_index_of(l, i);
    assert(e[i].name@ == l[i].0);
    assert(is_normal(l[i].0));
    assert(present(v, l[i].1));
    assert(cq.drop_last() =~= c);
    assert(cq.last() == l[i].0);
}

/// Law: while opened handles hold a node, `unlink` or `rmdir` of its path
/// takes it out of the namespace but keeps it, with what it was (its
/// backing object, mode and listing); it goes away when its last handle is
/// released.
pub proof fn law_removed_node_lives_while_held(
    pre: FsView,
    post: FsView,
    p: Seq<u8>,
    kind: VfsEntryKind,
    id: u64,
)
    requires
        view_wf(pre),
        remove_outcome(pre, p, kind) == (0i32, post.nodes),
        resolve(pre, p) == Some(id),
        pre.nodes[id].handles > 0,
    ensures
        post.nodes.contains_key(id),
        post.nodes[id] == (NodeView { parent: None, links: 0, ..pre.nodes[id] }),
        !present(post, id),
        pre.nodes[id].handles == 1 ==> !release_outcome(post.nodes, id).contains_key(id),
{
    let c = components(p);
    let (d, name) = resolve_parent(pre, p).unwrap();
    let c1 = c.drop_last();
    let l = listing_of(pre.nodes[d]);
    let m = entry_map(l);
    lemma_walk_to_all(pre, c);
    lemma_walk_to_all(pre, c1);
    lemma_walk_step(pre, c, c.len() - 1);
    assert(c.subrange(0, c.len() - 1) =~= c1.subrange(0, c1.len() as int));
    assert(m[name] == id);
    assert(has_name(l, name));
    assert(l.len() > 0);
    assert(d != id);
}

/// Law: opening a path that names a node, twice, reaches that node both
/// times (when each open gives a descriptor) and leaves the namespace as it
/// was; each open is a fresh description, asked of the backing, of that
/// node's own backing object, and the descriptor is the one the backing gave.
pub proof fn law_open_existing_reaches_same_node<B: NodeBacking>(
    v0: FsView,
    v1: FsView,
    v2: FsView,
    k0: B,
    k1: B,
    k2: B,
    p: Seq<u8>,
    flags1: i32,
    mode1: u32,
    b1: i32,
    o1: i32,
    r1: (i32, Option<u64>),
    flags2: i32,
    mode2: u32,
    b2: i32,
    o2: i32,
    r2: (i32, Option<u64>),
    id: u64,
)
    requires
        resolve(v0, p) == Some(id),
        open_outcome(v0, v1, None, p, flags1, mode1, b1, o1, r1),
        open_backing_steps(v0, k0, k1, None, p, flags1, b1, o1),
        open_outcome(v1, v2, None, p, flags2, mode2, b2, o2, r2),
        open_backing_steps(v1, k1, k2, None, p, flags2, b2, o2),
        r1.0 >= 0,
        r2.0 >= 0,
    ensures
        v1 == v0,
        v2 == v0,
        r1 == (o1, Some(id)),
        r2 == (o2, Some(id)),
        k0.spec_open(&k1, backing_of(v0.nodes[id]), backing_flags(flags1), o1),
        k1.spec_open(&k2, backing_of(v0.nodes[id]), backing_flags(flags2), o2),
{
}

/// Law: after `chmod` of a path that names a node, the path still names it,
/// and `stat` reports the permission bits that were set.
pub proof fn law_chmod_then_stat(pre: FsView, post: FsView, p: Seq<u8>, mode: u32, id: u64)
    requires
        resolve(pre, p) == Some(id),
        post == (FsView { nodes: with_mode(pre.nodes, id, mode), ..pre }),
    ensures
        resolve(post, p) == Some(id),
        forall|s: Stat| #[trigger] stat_of(post, id, s) ==> s.st_mode & 0o7777 == mode & 0o7777,
{
    let c = components(p);
    lemma_walk_to_all(pre, c);
    lemma_walk_to_all(post, c);
    lemma_walk_present(pre, c, c.len() as int);
    assert(present(post, pre.root)) by {
        lemma_walk_prefix(pre, c, 0, c.len() as int);
        lemma_walk_present(pre, c, 0);
        assert(c.subrange(0, 0) =~= Seq::<Seq<u8>>::empty());
    }
    assert forall|j: int| 0 <= j < c.len() implies #[trigger] step_kept(pre, post, c, j) by {}
    lemma_walk_stable(pre, post, c, c.len() as int);
    assert forall|s: Stat| #[trigger] stat_of(post, id, s) implies s.st_mode & 0o7777 == mode & 0o7777 by {
        let t = if is_dir_view(post.nodes[id]) {
            S_IFDIR
        } else {
            S_IFREG
        };
        assert(post.nodes[id].mode == mode & 0o7777);
        assert(s.st_mode == t | (mode & 0o7777));
        assert(t == 0o40000u32 || t == 0o100000u32);
        assert((t == 0o40000u32 || t == 0o100000u32) ==> (t | (mode & 0o7777)) & 0o7777 == mode
            & 0o7777) by (bit_vector);
    }
}

/// Law: the flags a backing object is opened with are the open's flags
/// without the lookup bits (`O_CREAT`, `O_EXCL`, `O_NOFOLLOW`,
/// `O_DIRECTORY`) and nothing else changed: the access mode, `O_TRUNC`,
/// `O_APPEND` and every other bit are handed on.
pub proof fn law_backing_flags_keep_all_but_lookup(f: i32)
    ensures
        backing_flags(f) & (O_CREAT | O_EXCL | O_NOFOLLOW | O_DIRECTORY) == 0,
        backing_flags(f) & !(O_CREAT | O_EXCL | O_NOFOLLOW | O_DIRECTORY) == f & !(O_CREAT | O_EXCL
            | O_NOFOLLOW | O_DIRECTORY),
        backing_flags(f) & O_TRUNC == f & O_TRUNC,
        backing_flags(f) & O_APPEND == f & O_APPEND,
        backing_flags(f) & 3 == f & 3,
{
    let g = backing_flags(f);
    assert(g == f & !(64i32 | 128i32 | 0x20000i32 | 0x10000i32));
    assert(f & !(64i32 | 128i32 | 0x20000i32 | 0x10000i32) & (64i32 | 128i32 | 0x20000i32 | 0x10000i32) == 0) by (bit_vector);
    assert(f & !(64i32 | 128i32 | 0x20000i32 | 0x10000i32) & !(64i32 | 128i32 | 0x20000i32 | 0x10000i32) == f & !(64i32 | 128i32 | 0x20000i32 | 0x10000i32)) by (bit_vector);
    assert(f & !(64i32 | 128i32 | 0x20000i32 | 0x10000i32) & 512i32 == f & 512i32) by (bit_vector);
    assert(f & !(64i32 | 128i32 | 0x20000i32 | 0x10000i32) & 1024i32 == f & 1024i32) by (bit_vector);
    assert(f & !(64i32 | 128i32 | 0x20000i32 | 0x10000i32) & 3i32 == f & 3i32) by (bit_vector);
}

/// Law: opening a node that a path names asks the backing for a fresh
/// description of that node's own object, with the open's flags less the
/// lookup bits only (so `O_TRUNC`, `O_APPEND` and the access mode reach the
/// kernel), and hands back what the backing gave.
pub proof fn law_open_hands_flags_to_backing<B: NodeBacking>(
    v: FsView,
    post: FsView,
    k0: B,
    k1: B,
    p: Seq<u8>,
    flags: i32,
    mode: u32,
    b: i32,
    o: i32,
    r: (i32, Option<u64>),
    id: u64,
)
    requires
        resolve(v, p) == Some(id),
        flags & (O_CREAT | O_EXCL) != (O_CREAT | O_EXCL),
        flags & O_DIRECTORY == 0,
        open_outcome(v, post, None, p, flags, mode, b, o, r),
        open_backing_steps(v, k0, k1, None, p, flags, b, o),
    ensures
        exists|g: i32|
            #![trigger k0.spec_open(&k1, backing_of(v.nodes[id]), g, o)]
            k0.spec_open(&k1, backing_of(v.nodes[id]), g, o) && g & !(O_CREAT | O_EXCL | O_NOFOLLOW
                | O_DIRECTORY) == flags & !(O_CREAT | O_EXCL | O_NOFOLLOW | O_DIRECTORY) && g & (
            O_CREAT | O_EXCL | O_NOFOLLOW | O_DIRECTORY) == 0,
        r.0 == (if o < 0 {
            -1i32
        } else {
            o
        }),
        post == v,
{
    law_backing_flags_keep_all_but_lookup(flags);
    assert(super::memory::excl_create(flags) == (flags & (O_CREAT | O_EXCL) == (O_CREAT | O_EXCL)));
    assert(k0.spec_open(&k1, backing_of(v.nodes[id]), backing_flags(flags), o));
}

/// Law: `rename(a, b)` succeeds whenever POSIX lets it, in one directory
/// or across two: `a` names a node in the namespace, `b`'s parent is a
/// directory, a directory is not moved under itself, and `b` names nothing,
/// or the same node, or a node that the moved one may replace (a file over a
/// file, a directory over an empty directory). It then returns 0 (and, by
/// `law_renamed_file_keeps_its_node` and `law_renamed_dir_keeps_its_node`,
/// `b` names what `a` named).
pub proof fn law_rename_succeeds_when_allowed(
    v: FsView,
    a: Seq<u8>,
    b: Seq<u8>,
    op: u64,
    on: Seq<u8>,
    np: u64,
    nn: Seq<u8>,
)
    requires
        !crate::path::is_root(a),
        !crate::path::is_root(b),
        !crate::path::path_eq(a, b),
        resolve_parent(v, a) == Some((op, on)),
        resolve_parent(v, b) == Some((np, nn)),
        is_dir_node(v, op),
        is_dir_node(v, np),
        entry_map(listing_of(v.nodes[op])).contains_key(on),
        present(v, entry_map(listing_of(v.nodes[op]))[on]),
        is_dir_view(v.nodes[entry_map(listing_of(v.nodes[op]))[on]]) ==> !crate::path::starts_with(b, a),
        entry_map(listing_of(v.nodes[np])).contains_key(nn) ==> {
            let oid = entry_map(listing_of(v.nodes[op]))[on];
            let rid = entry_map(listing_of(v.nodes[np]))[nn];
            ||| rid == oid
            ||| present(v, rid) && !is_dir_view(v.nodes[oid]) && !is_dir_view(v.nodes[rid])
            ||| present(v, rid) && is_dir_view(v.nodes[oid]) && is_dir_view(v.nodes[rid])
                && listing_of(v.nodes[rid]).len() == 0
        },
    ensures
        rename_outcome(v, a, b).0 == 0,
        entry_map(listing_of(v.nodes[np])).contains_key(nn) && entry_map(listing_of(v.nodes[np]))[nn]
            != entry_map(listing_of(v.nodes[op]))[on] ==> super::memory::rename_replaced(v, a, b)
            == Some(entry_map(listing_of(v.nodes[np]))[nn]),
        !entry_map(listing_of(v.nodes[np])).contains_key(nn) ==> super::memory::rename_replaced(
            v,
            a,
            b,
        ) is None,
{
    let oid = entry_map(listing_of(v.nodes[op]))[on];
    if entry_map(listing_of(v.nodes[np])).contains_key(nn) {
        let rid = entry_map(listing_of(v.nodes[np]))[nn];
        if rid != oid {
            assert(can_replace(v.nodes[oid], v.nodes[rid]));
        }
    }
}

/// The entries of a listing that name directories in the namespace.
pub open spec fn dir_entries_of(v: FsView, l: Seq<(Seq<u8>, u64)>) -> Seq<(Seq<u8>, u64)> {
    l.filter(|e: (Seq<u8>, u64)| present(v, e.1) && is_dir_view(v.nodes[e.1]))
}

/// The directory entries of a listing, counted.
proof fn lemma_count_dirs_is_filter(v: FsView, l: Seq<(Seq<u8>, u64)>)
    ensures
        super::memory::count_dirs(v, l) == dir_entries_of(v, l).len(),
    decreases l.len(),
{
    reveal_with_fuel(Seq::filter, 1);
    if l.len() > 0 {
        lemma_count_dirs_is_filter(v, l.drop_last());
    }
}

/// Law: `stat` of a directory in the namespace reports as its link count 2
/// plus the number of its entries that name directories (files do not
/// count), as long as that fits.
pub proof fn law_dir_nlink_counts_subdirectories(v: FsView, id: u64, s: Stat)
    requires
        present(v, id),
        is_dir_node(v, id),
        2 + dir_entries_of(v, listing_of(v.nodes[id])).len() <= u64::MAX,
        stat_of(v, id, s),
    ensures
        s.st_nlink == 2 + dir_entries_of(v, listing_of(v.nodes[id])).len(),
        forall|i: int|
            0 <= i < dir_entries_of(v, listing_of(v.nodes[id])).len() ==> is_dir_node(
                v,
                #[trigger] dir_entries_of(v, listing_of(v.nodes[id]))[i].1,
            ),
{
    lemma_count_dirs_is_filter(v, listing_of(v.nodes[id]));
    let l = listing_of(v.nodes[id]);
    let pred = |e: (Seq<u8>, u64)| present(v, e.1) && is_dir_view(v.nodes[e.1]);
    assert forall|i: int| 0 <= i < l.filter(pred).len() implies is_dir_node(v, #[trigger] l.filter(pred)[i].1) by {
        l.lemma_filter_pred(pred, i);
    }
}

} // verus!
