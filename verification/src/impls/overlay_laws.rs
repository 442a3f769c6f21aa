//! Laws of an overlay of in-memory layers.
use vstd::prelude::*;

use super::memory::{lemma_memory_view_wf, resolve, MemoryFS};
use super::memory_laws::law_created_path_names_new_node;
use super::overlay::{Layer, OverlayFS};
use crate::filesystem::{LowLevelFS, NodeBacking, VfsEntryKind};
use crate::sys::F_OK;

verus! {

/// Law: after `mkdir` through an overlay of in-memory layers succeeds, the
/// new directory is in the top layer, and the overlay shows that path
/// (its `access` gives 0): a write goes to the top layer and hides what the
/// layers below have at the same path.
pub proof fn law_overlay_mkdir_then_visible<B: NodeBacking>(
    pre: OverlayFS<MemoryFS<B>>,
    post: OverlayFS<MemoryFS<B>>,
    path: Seq<u8>,
    mode: u32,
)
    requires
        pre.spec_mkdir(&post, path, mode, 0),
        post.fs_inv(),
    ensures
        resolve(post.spec_top()@, path) is Some,
        post.spec_top().spec_access(path, F_OK, 0),
        post.spec_access(path, F_OK, 0),
{
    let mid = choose|mid: MemoryFS<B>|
        #![trigger pre.top_parents_made(mid, path)]
        pre.top_parents_made(mid, path) && mid.fs_inv() && mid.spec_mkdir(
            &post.spec_top(),
            path,
            mode,
            0,
        );
    let top = post.spec_top();
    let (b, c) = choose|b: i32, c: Option<u64>|
        super::memory::create_path_outcome(mid@, top@, None, path, VfsEntryKind::Dir, mode, b, c)
            && super::memory::create_backing_steps(
            mid@,
            mid.spec_backing(),
            top.spec_backing(),
            None,
            path,
            VfsEntryKind::Dir,
            b,
        ) && 0i32 == (if c is Some {
            0i32
        } else {
            -1i32
        });
    lemma_memory_view_wf(mid);
    lemma_memory_view_wf(top);
    law_created_path_names_new_node(mid@, top@, path, VfsEntryKind::Dir, mode, b, c.unwrap());
    assert(top.spec_access(path, F_OK, 0));
    let ma = match post.spec_middle() {
        Some(m) => Some(if resolve(m@, path) is Some {
            0i32
        } else {
            -1i32
        }),
        None => None,
    };
    assert(post.middle_access(path, ma));
    assert(post.visible_by(path, Layer::Top));
}

/// The layer whose file a path reads in an overlay of in-memory layers:
/// the top one when it has the path, else the middle one when there is one
/// and it has the path, else the base.
pub open spec fn read_layer<B: NodeBacking>(o: OverlayFS<MemoryFS<B>>, path: Seq<u8>) -> Layer {
    if resolve(o.spec_top()@, path) is Some {
        Layer::Top
    } else if o.spec_middle() is Some && resolve(o.spec_middle().unwrap()@, path) is Some {
        Layer::Middle
    } else {
        Layer::Base
    }
}

/// `step` took layer `l` of `pre` to that of `post`, and the other layers
/// stayed as they were.
pub open spec fn in_layer<B: NodeBacking>(
    pre: OverlayFS<MemoryFS<B>>,
    post: OverlayFS<MemoryFS<B>>,
    l: Layer,
    step: spec_fn(MemoryFS<B>, MemoryFS<B>) -> bool,
) -> bool {
    match l {
        Layer::Top => step(pre.spec_top(), post.spec_top()) && post.spec_middle() == pre.spec_middle()
            && post.spec_base() == pre.spec_base(),
        Layer::Middle => post.spec_middle() is Some && step(
            pre.spec_middle().unwrap(),
            post.spec_middle().unwrap(),
        ) && post.spec_top() == pre.spec_top() && post.spec_base() == pre.spec_base(),
        Layer::Base => step(pre.spec_base(), post.spec_base()) && post.spec_top() == pre.spec_top()
            && post.spec_middle() == pre.spec_middle(),
    }
}

proof fn lemma_visible_is_read_layer<B: NodeBacking>(o: OverlayFS<MemoryFS<B>>, path: Seq<u8>, l: Layer)
    requires
        o.visible_by(path, l),
    ensures
        l == read_layer(o, path),
{
    let (ta, ma) = choose|ta: i32, ma: Option<i32>|
        o.spec_top().spec_access(path, F_OK, ta) && o.middle_access(path, ma) && l == super::overlay::visible(
            ta == 0,
            match ma {
                Some(a) => Some(a == 0),
                None => None,
            },
        );
}

/// Law: an open through an overlay of in-memory layers that does not write
/// (no write access, `O_CREAT`, `O_TRUNC` or `O_APPEND`) is the open of the
/// layer in which the path is visible (the top one when it has the path,
/// then the middle one, then the base), for `open` and `open_with_handle`
/// alike; only that layer changes, and the result is that layer's.
pub proof fn law_overlay_read_open_uses_visible_layer<B: NodeBacking>(
    pre: OverlayFS<MemoryFS<B>>,
    post1: OverlayFS<MemoryFS<B>>,
    post2: OverlayFS<MemoryFS<B>>,
    path: Seq<u8>,
    flag: i32,
    mode: u32,
    r1: i32,
    r2: crate::filesystem::OpenResult,
)
    requires
        !super::overlay::writes(flag),
        pre.spec_open(&post1, path, flag, mode, r1),
        pre.spec_open_with_handle(&post2, path, flag, mode, r2),
    ensures
        in_layer(
            pre,
            post1,
            read_layer(pre, path),
            |a: MemoryFS<B>, b: MemoryFS<B>| a.spec_open(&b, path, flag, mode, r1),
        ),
        in_layer(
            pre,
            post2,
            read_layer(pre, path),
            |a: MemoryFS<B>, b: MemoryFS<B>| a.spec_open_with_handle(&b, path, flag, mode, r2),
        ),
{
    let l1 = choose|l: Layer|
        pre.visible_by(path, l) && pre.only_layer(
            &post1,
            l,
            |a: MemoryFS<B>, b: MemoryFS<B>| a.spec_open(&b, path, flag, mode, r1),
        );
    lemma_visible_is_read_layer(pre, path, l1);
    let l2 = choose|l: Layer|
        pre.visible_by(path, l) && pre.only_layer(
            &post2,
            l,
            |a: MemoryFS<B>, b: MemoryFS<B>| a.spec_open_with_handle(&b, path, flag, mode, r2),
        );
    lemma_visible_is_read_layer(pre, path, l2);
}

} // verus!
