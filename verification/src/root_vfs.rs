//! The RootVFS filesystem is the one exposed to the user and the only
//! able to do mounts. A mount under a mount is still managed here!
use vstd::prelude::*;

use std::collections::HashMap;

use crate::filesystem::{listing_view, LowLevelFS, OpenResult, Stat, VfsDirEntry};
use crate::impls::memory::{can_resolve_relative_to_opened_node, resolvable_from_node};
use crate::linux_dirents::{
    dirents_written, dot_entry_list, write_dirents64, is_dot_listing, lemma_dirents_consumed,
    WriteDirentsResult,
};
use crate::path::{
    append_bytes, component_lists_equal, components, components_of, is_absolute, is_absolute_path,
    join, join_paths, normalize, normalize_path, path_eq, paths_equal, render, render_components,
    views,
};
use crate::sys::{AT_FDCWD, AT_REMOVEDIR};

verus! {

broadcast use vstd::std_specs::hash::group_hash_axioms;

/// The virtual path that `p` names when the working directory is `cwd`.
pub open spec fn resolved_path(cwd: Seq<u8>, p: Seq<u8>) -> Seq<u8> {
    if is_absolute(p) {
        normalize(p)
    } else {
        normalize(join(cwd, p))
    }
}

/// The virtual path that `p` names for `openat` with directory `dirfd`:
/// relative paths go from the working directory for `AT_FDCWD`, from the
/// path a tracked descriptor was opened with otherwise, and name nothing
/// for an untracked descriptor.
pub open spec fn openat_path(fds: Map<i32, Seq<u8>>, cwd: Seq<u8>, dirfd: i32, p: Seq<u8>) -> Option<
    Seq<u8>,
> {
    if is_absolute(p) {
        Some(normalize(p))
    } else if dirfd == AT_FDCWD {
        Some(resolved_path(cwd, p))
    } else if fds.contains_key(dirfd) {
        Some(normalize(join(fds[dirfd], p)))
    } else {
        None
    }
}

/// Mount point `key` is the path with components `prefix`.
pub open spec fn mount_is(key: Seq<u8>, prefix: Seq<Seq<u8>>) -> bool {
    is_absolute(key) && components(key) == prefix
}

/// Some mount point is the ancestor of `c` with `k` components.
pub open spec fn mounted_at(keys: Seq<Seq<u8>>, c: Seq<Seq<u8>>, k: int) -> bool {
    exists|j: int| 0 <= j < keys.len() && (#[trigger] mount_is(keys[j], c.subrange(0, k)))
}

/// Mount `j` is the deepest mounted ancestor of `c`, at `k` components, and
/// `sub` is the rest of the path under `/`.
pub open spec fn mount_level(keys: Seq<Seq<u8>>, c: Seq<Seq<u8>>, j: usize, k: int, sub: Seq<u8>) -> bool {
    &&& 1 <= k <= c.len()
    &&& mount_is(keys[j as int], c.subrange(0, k))
    &&& forall|k2: int| k < k2 <= c.len() ==> !mounted_at(keys, c, k2)
    &&& sub == render(c.subrange(k, c.len() as int))
}

/// Where a normal absolute path `p` goes: to the mount at its deepest
/// mounted ancestor other than the root, with the rest of the path under
/// `/`; to the root filesystem, unchanged, when no such ancestor exists.
pub open spec fn routed(keys: Seq<Seq<u8>>, p: Seq<u8>, target: Option<usize>, sub: Seq<u8>) -> bool {
    match target {
        Some(j) => j < keys.len() && exists|k: int| #[trigger] mount_level(keys, components(p), j, k, sub),
        None => (forall|k: int| 1 <= k <= components(p).len() ==> !mounted_at(keys, components(p), k))
            && sub == p,
    }
}

/// No two mount points are the same path.
pub open spec fn distinct_mounts(keys: Seq<Seq<u8>>) -> bool {
    forall|i: int, j: int| 0 <= i < j < keys.len() ==> !path_eq(#[trigger] keys[i], #[trigger] keys[j])
}

fn key_matches(key: &[u8], c: &Vec<Vec<u8>>, k: usize) -> (r: bool)
    requires
        k <= c.len(),
    ensures
        r == mount_is(key@, views(c@).subrange(0, k as int)),
{
    if !is_absolute_path(key) {
        return false;
    }
    let kc = components_of(key);
    let mut prefix: Vec<Vec<u8>> = Vec::new();
    let mut i: usize = 0;
    while i < k
        invariant
            i <= k <= c.len(),
            views(prefix@) == views(c@).subrange(0, i as int),
        decreases k - i,
    {
        let ghost before = prefix@;
        prefix.push(c[i].clone());
        assert(views(prefix@) =~= views(before).push(views(c@)[i as int]));
        assert(views(c@).subrange(0, i + 1) =~= views(c@).subrange(0, i as int).push(
            views(c@)[i as int],
        ));
        i += 1;
    }
    component_lists_equal(&kc, &prefix)
}

fn components_from(c: &Vec<Vec<u8>>, k: usize) -> (r: Vec<Vec<u8>>)
    requires
        k <= c.len(),
    ensures
        views(r@) == views(c@).subrange(k as int, c@.len() as int),
{
    let mut out: Vec<Vec<u8>> = Vec::new();
    let mut i: usize = k;
    while i < c.len()
        invariant
            k <= i <= c.len(),
            views(out@) == views(c@).subrange(k as int, i as int),
        decreases c.len() - i,
    {
        let ghost before = out@;
        out.push(c[i].clone());
        assert(views(out@) =~= views(before).push(views(c@)[i as int]));
        assert(views(c@).subrange(k as int, i + 1) =~= views(c@).subrange(k as int, i as int).push(
            views(c@)[i as int],
        ));
        i += 1;
    }
    out
}

/// Law: the path of a list of components is absolute.
pub proof fn lemma_render_absolute(s: Seq<Seq<u8>>)
    ensures
        is_absolute(render(s)),
{
    assert(render(s)[0] == crate::path::SEP);
}

/// Law: a normalized path is absolute, so every virtual path that
/// `resolve_path` gives is.
pub proof fn lemma_normalize_absolute(p: Seq<u8>)
    ensures
        is_absolute(normalize(p)),
{
    lemma_render_absolute(crate::path::fold_dots(components(p)));
}

/// Law: routing an absolute path gives an absolute path in the target
/// filesystem.
pub proof fn lemma_routed_absolute(keys: Seq<Seq<u8>>, p: Seq<u8>, t: Option<usize>, sub: Seq<u8>)
    requires
        routed(keys, p, t, sub),
        is_absolute(p),
    ensures
        is_absolute(sub),
{
    if let Some(j) = t {
        let c = components(p);
        let k = choose|k: int| #[trigger] mount_level(keys, c, j, k, sub);
        lemma_render_absolute(c.subrange(k, c.len() as int));
    }
}

/// Law: a path has one route: the filesystem and the path inside it are
/// determined by the path and the mount points.
pub proof fn law_route_is_unique(
    keys: Seq<Seq<u8>>,
    p: Seq<u8>,
    t1: Option<usize>,
    s1: Seq<u8>,
    t2: Option<usize>,
    s2: Seq<u8>,
)
    requires
        distinct_mounts(keys),
        routed(keys, p, t1, s1),
        routed(keys, p, t2, s2),
    ensures
        t1 == t2,
        s1 == s2,
{
    let c = components(p);
    match (t1, t2) {
        (Some(j1), Some(j2)) => {
            let k1 = choose|k: int| #[trigger] mount_level(keys, c, j1, k, s1);
            let k2 = choose|k: int| #[trigger] mount_level(keys, c, j2, k, s2);
            if k1 < k2 {
                assert(mounted_at(keys, c, k2));
            } else if k2 < k1 {
                assert(mounted_at(keys, c, k1));
            } else {
                assert(components(keys[j1 as int]) == components(keys[j2 as int]));
                assert(path_eq(keys[j1 as int], keys[j2 as int]));
                if j1 < j2 {
                    assert(!path_eq(keys[j1 as int], keys[j2 as int]));
                } else if j2 < j1 {
                    assert(!path_eq(keys[j2 as int], keys[j1 as int]));
                }
            }
        },
        (Some(j1), None) => {
            let k1 = choose|k: int| #[trigger] mount_level(keys, c, j1, k, s1);
            assert(mounted_at(keys, c, k1));
        },
        (None, Some(j2)) => {
            let k2 = choose|k: int| #[trigger] mount_level(keys, c, j2, k, s2);
            assert(mounted_at(keys, c, k2));
        },
        (None, None) => {},
    }
}

/// Law: every path that `openat` names is absolute.
pub proof fn lemma_openat_path_absolute(fds: Map<i32, Seq<u8>>, cwd: Seq<u8>, dirfd: i32, p: Seq<u8>)
    ensures
        openat_path(fds, cwd, dirfd, p) matches Some(vp) ==> is_absolute(vp),
{
    lemma_normalize_absolute(p);
    lemma_normalize_absolute(join(cwd, p));
    if fds.contains_key(dirfd) {
        lemma_normalize_absolute(join(fds[dirfd], p));
    }
}

/// Law: a virtual path names itself: resolving it again, from any working
/// directory, gives it back.
pub proof fn law_resolution_idempotent(cwd: Seq<u8>, cwd2: Seq<u8>, p: Seq<u8>)
    ensures
        resolved_path(cwd2, resolved_path(cwd, p)) == resolved_path(cwd, p),
{
    let q = if is_absolute(p) {
        p
    } else {
        join(cwd, p)
    };
    lemma_normalize_absolute(q);
    crate::path_laws::law_normalize_idempotent(q);
}

/// Law: `openat` with `AT_FDCWD` names the path that `open` names.
pub proof fn law_at_fdcwd_names_as_open(fds: Map<i32, Seq<u8>>, cwd: Seq<u8>, p: Seq<u8>)
    ensures
        openat_path(fds, cwd, AT_FDCWD, p) == Some(resolved_path(cwd, p)),
{
}

/// Law: a descriptor tracked under the virtual path `vp` is the base of
/// relative `openat` paths, whatever it was before.
pub proof fn law_tracked_fd_is_base(
    fds: Map<i32, Seq<u8>>,
    cwd: Seq<u8>,
    fd: i32,
    vp: Seq<u8>,
    p: Seq<u8>,
)
    requires
        fd != AT_FDCWD,
        !is_absolute(p),
    ensures
        openat_path(fds.insert(fd, vp), cwd, fd, p) == Some(normalize(join(vp, p))),
{
}

/// Law: once a descriptor is forgotten, a relative `openat` path from it
/// names nothing.
pub proof fn law_forgotten_fd_is_no_base(fds: Map<i32, Seq<u8>>, cwd: Seq<u8>, fd: i32, p: Seq<u8>)
    requires
        fd != AT_FDCWD,
        !is_absolute(p),
    ensures
        openat_path(fds.remove(fd), cwd, fd, p) is None,
{
}

#[derive(Debug)]
pub struct RootVFS<F> {
    root: F,
    mounts: Vec<(Vec<u8>, F)>,
    cwd: Vec<u8>,
    fds: HashMap<i32, Vec<u8>>,
    offsets: HashMap<i32, usize>,
    handles: HashMap<i32, u64>,
}

impl<F: LowLevelFS> RootVFS<F> {
    pub closed spec fn spec_root(&self) -> F {
        self.root
    }

    /// The mount points, in the order they were first given.
    pub closed spec fn mount_keys(&self) -> Seq<Seq<u8>> {
        Seq::new(self.mounts@.len(), |j: int| self.mounts@[j].0@)
    }

    /// The mounted filesystems, parallel to `mount_keys`.
    pub closed spec fn mount_fs(&self) -> Seq<F> {
        Seq::new(self.mounts@.len(), |j: int| self.mounts@[j].1)
    }

    pub closed spec fn spec_cwd(&self) -> Seq<u8> {
        self.cwd@
    }

    /// The virtual path of each tracked descriptor.
    pub closed spec fn spec_fds(&self) -> Map<i32, Seq<u8>> {
        self.fds@.map_values(|v: Vec<u8>| v@)
    }

    /// How many entries of its directory each descriptor has read.
    pub closed spec fn spec_offsets(&self) -> Map<i32, usize> {
        self.offsets@
    }

    /// The opened object, kept by the filesystem the descriptor's path is
    /// routed to, of each descriptor whose open gave one.
    pub closed spec fn spec_handles(&self) -> Map<i32, u64> {
        self.handles@
    }

    /// The filesystem a route leads to.
    pub open spec fn target_fs(&self, target: Option<usize>) -> F {
        match target {
            Some(j) => self.mount_fs()[j as int],
            None => self.spec_root(),
        }
    }

    pub open spec fn inv(&self) -> bool {
        &&& self.spec_root().fs_inv()
        &&& forall|j: int| 0 <= j < self.mount_fs().len() ==> #[trigger] self.mount_fs()[j].fs_inv()
        &&& self.mount_keys().len() == self.mount_fs().len()
        &&& distinct_mounts(self.mount_keys())
        &&& is_absolute(self.spec_cwd())
        &&& self.tracked_absolute()
    }

    /// Every tracked descriptor was opened with an absolute virtual path.
    pub closed spec fn tracked_absolute(&self) -> bool {
        forall|fd: i32| #[trigger] self.fds@.contains_key(fd) ==> is_absolute(self.fds@[fd]@)
    }

    pub fn new(root: F) -> (r: Self)
        requires
            root.fs_inv(),
        ensures
            r.inv(),
            r.spec_root() == root,
            r.mount_keys().len() == 0,
            r.spec_cwd() == seq![crate::path::SEP],
            r.spec_fds() == Map::<i32, Seq<u8>>::empty(),
            r.spec_offsets() == Map::<i32, usize>::empty(),
            r.spec_handles() == Map::<i32, u64>::empty(),
    {
        let mut cwd: Vec<u8> = Vec::new();
        cwd.push(crate::path::SEP);
        let r = Self {
            root,
            mounts: Vec::new(),
            cwd,
            fds: HashMap::new(),
            offsets: HashMap::new(),
            handles: HashMap::new(),
        };
        assert(r.cwd@ =~= seq![crate::path::SEP]);
        assert(r.spec_fds() =~= Map::<i32, Seq<u8>>::empty());
        assert(r.spec_offsets() =~= Map::<i32, usize>::empty());
        assert(r.mount_keys() =~= Seq::<Seq<u8>>::empty());
        r
    }

    /// Mounts `fs` at `mount_p`; a mount point equal to an earlier one
    /// replaces that one's filesystem.
    // For now use well defined mount points, without trailing slash
    pub fn with_mount(self, mount_p: &[u8], fs: F) -> (r: Self)
        requires
            self.inv(),
            fs.fs_inv(),
        ensures
            r.inv(),
            r.spec_root() == self.spec_root(),
            r.spec_cwd() == self.spec_cwd(),
            r.spec_fds() == self.spec_fds(),
            (exists|j: int|
                0 <= j < self.mount_keys().len() && path_eq(self.mount_keys()[j], mount_p@)) ==> {
                let j = choose|j: int|
                    0 <= j < self.mount_keys().len() && path_eq(self.mount_keys()[j], mount_p@);
                &&& r.mount_keys() == self.mount_keys()
                &&& r.mount_fs() == self.mount_fs().update(j, fs)
            },
            !(exists|j: int|
                0 <= j < self.mount_keys().len() && path_eq(self.mount_keys()[j], mount_p@)) ==> {
                &&& r.mount_keys() == self.mount_keys().push(mount_p@)
                &&& r.mount_fs() == self.mount_fs().push(fs)
            },
    {
        let ghost root0 = self.spec_root();
        let ghost cwd0 = self.spec_cwd();
        let ghost fds0 = self.spec_fds();
        let mut s = self;
        let ghost keys = s.mount_keys();
        let ghost fss = s.mount_fs();
        let ghost s0 = s;
        let mut i: usize = 0;
        while i < s.mounts.len()
            invariant
                i <= s.mounts@.len(),
                s == s0,
                s0 == self,
                s0.spec_root() == root0,
                s0.spec_cwd() == cwd0,
                s0.spec_fds() == fds0,
                s0.inv(),
                fs.fs_inv(),
                keys == s.mount_keys(),
                fss == s.mount_fs(),
                forall|k: int| 0 <= k < i ==> !path_eq(#[trigger] keys[k], mount_p@),
            decreases s.mounts@.len() - i,
        {
            if paths_equal(s.mounts[i].0.as_slice(), mount_p) {
                assert(keys[i as int] == s.mounts@[i as int].0@);
                let (key, _) = s.mounts.remove(i);
                s.mounts.insert(i, (key, fs));
                proof {
                    assert(path_eq(keys[i as int], mount_p@));
                    let j = choose|j: int| 0 <= j < keys.len() && path_eq(keys[j], mount_p@);
                    if j < i {
                        assert(!path_eq(keys[j], mount_p@));
                    } else if j > i {
                        // two equal mount points cannot both be there
                        assert(path_eq(keys[i as int], keys[j]));
                    }
                    assert(s.mount_keys() =~= keys);
                    assert(s.mount_fs() =~= fss.update(i as int, fs));
                    assert(s.spec_root() == s0.spec_root());
                    assert(s.spec_cwd() == s0.spec_cwd());
                    assert(s.spec_fds() == s0.spec_fds());
                    assert(s0.spec_root() == root0);
                    assert(s0.spec_cwd() == cwd0);
                    assert forall|a: int| 0 <= a < s.mount_fs().len() implies #[trigger] s.mount_fs()[a].fs_inv() by {
                        if a != i {
                            assert(s.mount_fs()[a] == fss[a]);
                        }
                    }
                }
                return s;
            }
            i += 1;
        }
        let key = vstd::slice::slice_to_vec(mount_p);
        s.mounts.push((key, fs));
        proof {
            assert(s.mount_keys() =~= keys.push(mount_p@));
            assert(s.mount_fs() =~= fss.push(fs));
            assert(s.spec_root() == s0.spec_root());
            assert(s.spec_cwd() == s0.spec_cwd());
            assert(s.spec_fds() == s0.spec_fds());
            assert forall|a: int| 0 <= a < s.mount_fs().len() implies #[trigger] s.mount_fs()[a].fs_inv() by {
                if a < fss.len() {
                    assert(s.mount_fs()[a] == fss[a]);
                }
            }
            assert forall|a: int, b: int|
                0 <= a < b < s.mount_keys().len() implies !path_eq(
                #[trigger] s.mount_keys()[a],
                #[trigger] s.mount_keys()[b],
            ) by {
                if b == keys.len() {
                    assert(!path_eq(keys[a], mount_p@));
                }
            }
        }
        s
    }

    /// Sets the working directory that relative paths start from.
    pub fn set_cwd(&mut self, path: &[u8])
        requires
            old(self).inv(),
            is_absolute(path@),
        ensures
            final(self).inv(),
            final(self).spec_cwd() == normalize(path@),
            final(self).spec_root() == old(self).spec_root(),
            final(self).mount_keys() == old(self).mount_keys(),
            final(self).mount_fs() == old(self).mount_fs(),
            final(self).spec_fds() == old(self).spec_fds(),
    {
        self.cwd = normalize_path(path);
        assert(self.mount_keys() =~= old(self).mount_keys());
        assert(self.mount_fs() =~= old(self).mount_fs());
    }

    /// The virtual path that `path` names.
    pub fn resolve_path(&self, path: &[u8]) -> (r: Vec<u8>)
        ensures
            r@ == resolved_path(self.spec_cwd(), path@),
    {
        if is_absolute_path(path) {
            return normalize_path(path);
        }
        let joined = join_paths(self.cwd.as_slice(), path);
        normalize_path(joined.as_slice())
    }

    /// The virtual path that `path` names for `openat` relative to `dirfd`.
    pub fn resolve_openat_path(&self, dirfd: i32, path: &[u8]) -> (r: Option<Vec<u8>>)
        ensures
            match r {
                Some(v) => openat_path(self.spec_fds(), self.spec_cwd(), dirfd, path@) == Some(v@),
                None => openat_path(self.spec_fds(), self.spec_cwd(), dirfd, path@) is None,
            },
    {
        if is_absolute_path(path) {
            return Some(normalize_path(path));
        }
        if dirfd == AT_FDCWD {
            return Some(self.resolve_path(path));
        }
        match self.fds.get(&dirfd) {
            Some(base) => {
                let joined = join_paths(base.as_slice(), path);
                Some(normalize_path(joined.as_slice()))
            },
            None => None,
        }
    }

    /// Where the virtual path `in_path` goes: a mount (by index) and the
    /// path inside it, or the root filesystem and the path unchanged.
    pub fn route(&self, in_path: &[u8]) -> (r: (Option<usize>, Vec<u8>))
        requires
            self.inv(),
        ensures
            routed(self.mount_keys(), in_path@, r.0, r.1@),
    {
        let c = components_of(in_path);
        let ghost cv = views(c@);
        let ghost keys = self.mount_keys();
        let mut k: usize = c.len();
        while k >= 1
            invariant
                k <= c.len(),
                cv == views(c@),
                cv == components(in_path@),
                keys == self.mount_keys(),
                self.mount_keys().len() == self.mounts@.len(),
                forall|k2: int| k < k2 <= cv.len() ==> !mounted_at(keys, cv, k2),
            decreases k,
        {
            let mut j: usize = 0;
            while j < self.mounts.len()
                invariant
                    1 <= k <= c.len(),
                    j <= self.mounts@.len(),
                    cv == views(c@),
                    cv == components(in_path@),
                    forall|k2: int| k < k2 <= cv.len() ==> !mounted_at(keys, cv, k2),
                    keys == self.mount_keys(),
                    self.mount_keys().len() == self.mounts@.len(),
                    forall|j2: int| 0 <= j2 < j ==> !#[trigger] mount_is(keys[j2], cv.subrange(0, k as int)),
                decreases self.mounts@.len() - j,
            {
                if key_matches(self.mounts[j].0.as_slice(), &c, k) {
                    assert(keys[j as int] == self.mounts@[j as int].0@);
                    let rest = components_from(&c, k);
                    let sub = render_components(&rest);
                    assert(mount_is(keys[j as int], cv.subrange(0, k as int)));
                    assert(sub@ == render(cv.subrange(k as int, cv.len() as int)));
                    assert(mount_level(keys, cv, j, k as int, sub@));
                    assert(routed(keys, in_path@, Some(j), sub@));
                    return (Some(j), sub);
                }
                assert(keys[j as int] == self.mounts@[j as int].0@);
                j += 1;
            }
            assert(!mounted_at(keys, cv, k as int));
            k -= 1;
        }
        let mut out: Vec<u8> = Vec::new();
        append_bytes(&mut out, in_path);
        assert(out@ =~= in_path@);
        (None, out)
    }

    /// Find the actual filesystem and respective underlying path
    pub fn path_to_fs(&self, in_path: &[u8]) -> (r: (&F, Vec<u8>))
        requires
            self.inv(),
        ensures
            exists|t: Option<usize>|
                routed(self.mount_keys(), resolved_path(self.spec_cwd(), in_path@), t, r.1@) && *r.0
                    == self.target_fs(t),
    {
        let p = self.resolve_path(in_path);
        self.absolute_path_to_fs(p.as_slice())
    }

    /// The filesystem and the path inside it for the virtual path `in_path`.
    pub fn absolute_path_to_fs(&self, in_path: &[u8]) -> (r: (&F, Vec<u8>))
        requires
            self.inv(),
        ensures
            exists|t: Option<usize>|
                routed(self.mount_keys(), in_path@, t, r.1@) && *r.0 == self.target_fs(t),
    {
        let (t, sub) = self.route(in_path);
        match t {
            Some(j) => {
                let f = &self.mounts[j].1;
                assert(*f == self.target_fs(Some(j)));
                assert(routed(self.mount_keys(), in_path@, Some(j), sub@) && *f == self.target_fs(Some(j)));
                (f, sub)
            },
            None => {
                let f = &self.root;
                assert(routed(self.mount_keys(), in_path@, None, sub@) && *f == self.target_fs(None));
                (f, sub)
            },
        }
    }

    /// Records the virtual path, and the opened object if any, of a
    /// descriptor that opened.
    fn track_fd(&mut self, fd: i32, path: Vec<u8>, opened: Option<u64>) -> (r: i32)
        requires
            fd >= 0 ==> is_absolute(path@),
        ensures
            final(self).spec_handles() == handles_after(old(self).spec_handles(), fd, opened),
            old(self).tracked_absolute() ==> final(self).tracked_absolute(),
            r == fd,
            final(self).spec_fds() == (if fd >= 0 {
                old(self).spec_fds().insert(fd, path@)
            } else {
                old(self).spec_fds()
            }),
            final(self).spec_offsets() == (if fd >= 0 {
                old(self).spec_offsets().remove(fd)
            } else {
                old(self).spec_offsets()
            }),
            final(self).spec_root() == old(self).spec_root(),
            final(self).mount_keys() == old(self).mount_keys(),
            final(self).mount_fs() == old(self).mount_fs(),
            final(self).spec_cwd() == old(self).spec_cwd(),
    {
        if fd >= 0 {
            let ghost p = path@;
            self.fds.insert(fd, path);
            self.offsets.remove(&fd);
            match opened {
                Some(h) => {
                    self.handles.insert(fd, h);
                },
                None => {
                    self.handles.remove(&fd);
                },
            }
            assert(self.spec_fds() =~= old(self).spec_fds().insert(fd, p));
        }
        assert(self.mount_keys() =~= old(self).mount_keys());
        assert(self.mount_fs() =~= old(self).mount_fs());
        fd
    }

    /// Stops tracking a descriptor (it was closed), giving its opened
    /// object, if it has one, back to the filesystem that keeps it.
    pub fn forget_fd(&mut self, fd: i32)
        requires
            old(self).inv(),
        ensures
            final(self).inv(),
            final(self).spec_fds() == old(self).spec_fds().remove(fd),
            final(self).spec_offsets() == old(self).spec_offsets().remove(fd),
            final(self).spec_handles() == old(self).spec_handles().remove(fd),
            final(self).mount_keys() == old(self).mount_keys(),
            final(self).mount_fs().len() == old(self).mount_fs().len(),
            final(self).spec_cwd() == old(self).spec_cwd(),
            old(self).spec_fds().contains_key(fd) && old(self).spec_handles().contains_key(fd) ==> exists|
                t: Option<usize>,
                sub: Seq<u8>,
            |
                #![trigger routed(old(self).mount_keys(), old(self).spec_fds()[fd], t, sub)]
                routed(old(self).mount_keys(), old(self).spec_fds()[fd], t, sub)
                    && final(self).others_unchanged(&*old(self), t) && old(self).target_fs(
                    t,
                ).spec_release_opened(&final(self).target_fs(t), old(self).spec_handles()[fd]),
            !(old(self).spec_fds().contains_key(fd) && old(self).spec_handles().contains_key(fd))
                ==> final(self).spec_root() == old(self).spec_root() && final(self).mount_fs()
                == old(self).mount_fs(),
    {
        let path = match self.fds.get(&fd) {
            Some(p) => Some(p.clone()),
            None => None,
        };
        let h = match self.handles.get(&fd) {
            Some(h) => Some(*h),
            None => None,
        };
        self.fds.remove(&fd);
        self.offsets.remove(&fd);
        self.handles.remove(&fd);
        assert(self.spec_fds() =~= old(self).spec_fds().remove(fd));
        assert(self.mount_keys() =~= old(self).mount_keys());
        assert(self.mount_fs() =~= old(self).mount_fs());
        match (path, h) {
            (Some(p), Some(h)) => {
                assert(old(self).spec_fds()[fd] == p@);
                proof {
                    assert(old(self).tracked_absolute());
                    assert(old(self).fds@.contains_key(fd));
                }
                let (t, sub) = self.route(p.as_slice());
                self.release_in(t, h);
                assert(routed(old(self).mount_keys(), old(self).spec_fds()[fd], t, sub@));
            },
            _ => {},
        }
    }

    fn release_in(&mut self, t: Option<usize>, h: u64)
        requires
            old(self).inv(),
            t matches Some(j) ==> j < old(self).mount_keys().len(),
        ensures
            final(self).inv(),
            final(self).same_table(&*old(self)),
            final(self).others_unchanged(&*old(self), t),
            old(self).target_fs(t).spec_release_opened(&final(self).target_fs(t), h),
    {
        match t {
            Some(j) => {
                let (key, mut fs) = self.mounts.remove(j);
                assert(fs == old(self).mount_fs()[j as int]);
                fs.release_opened(h);
                self.mounts.insert(j, (key, fs));
                assert(self.mount_keys() =~= old(self).mount_keys());
                assert(self.mount_fs() =~= old(self).mount_fs().update(j as int, fs));
            },
            None => {
                self.root.release_opened(h);
                assert(self.mount_keys() =~= old(self).mount_keys());
                assert(self.mount_fs() =~= old(self).mount_fs());
            },
        }
    }

    pub fn id(&self) -> (r: &str)
        ensures
            r@ == "<RootVFS>"@,
    {
        "<RootVFS>"
    }

    pub fn access(&self, path: &[u8], mode: i32) -> (r: i32)
        requires
            self.inv(),
        ensures
            exists|t: Option<usize>, sub: Seq<u8>|
                routed(self.mount_keys(), resolved_path(self.spec_cwd(), path@), t, sub)
                    && self.target_fs(t).spec_access(sub, mode, r),
    {
        let p = self.resolve_path(path);
        let (t, sub) = self.route(p.as_slice());
        assert(is_absolute(sub@)) by {
            lemma_routed_absolute(self.mount_keys(), p@, t, sub@);
            lemma_normalize_absolute(p@);
        }
        let r = match t {
            Some(j) => {
                assert(self.mount_fs()[j as int] == self.mounts@[j as int].1);
                self.mounts[j].1.access(sub.as_slice(), mode)
            },
            None => self.root.access(sub.as_slice(), mode),
        };
        assert(routed(self.mount_keys(), p@, t, sub@));
        r
    }
}


impl<F: LowLevelFS> RootVFS<F> {
    /// The parts of the root that operations on one filesystem leave alone.
    pub open spec fn same_table(&self, other: &Self) -> bool {
        &&& self.mount_keys() == other.mount_keys()
        &&& self.mount_fs().len() == other.mount_fs().len()
        &&& self.spec_cwd() == other.spec_cwd()
        &&& self.spec_fds() == other.spec_fds()
        &&& self.spec_offsets() == other.spec_offsets()
        &&& self.spec_handles() == other.spec_handles()
    }

    /// Only the filesystem that `t` leads to may have changed.
    pub open spec fn others_unchanged(&self, other: &Self, t: Option<usize>) -> bool {
        &&& t is Some ==> self.spec_root() == other.spec_root()
        &&& forall|j: int|
            0 <= j < self.mount_fs().len() && t != Some(j as usize) ==> #[trigger] self.mount_fs()[j]
                == other.mount_fs()[j]
    }

    /// Whether a relative `openat` or `mkdirat` of `path` from `dirfd` goes
    /// through the opened object of `dirfd`, kept by filesystem `t`: the
    /// descriptor has one, the path is relative without `..`, and the
    /// descriptor's path is routed to `t` as the whole path is.
    pub open spec fn through_handle(&self, dirfd: i32, path: Seq<u8>, t: Option<usize>) -> bool {
        &&& dirfd != AT_FDCWD
        &&& self.spec_fds().contains_key(dirfd)
        &&& self.spec_handles().contains_key(dirfd)
        &&& resolvable_from_node(path)
        &&& exists|s2: Seq<u8>| #[trigger] routed(self.mount_keys(), self.spec_fds()[dirfd], t, s2)
    }

    /// What an open routed to `t` and `sub` did in that filesystem: through
    /// the opened object of `dirfd` when `through_handle` holds and that open
    /// answered; otherwise by path (after the attempt through the object,
    /// when there was one).
    pub open spec fn opened_in(
        &self,
        before: &Self,
        dirfd: i32,
        path: Seq<u8>,
        flag: i32,
        mode: u32,
        t: Option<usize>,
        sub: Seq<u8>,
        o: OpenResult,
    ) -> bool {
        if before.through_handle(dirfd, path, t) {
            ||| before.target_fs(t).spec_open_child(
                &self.target_fs(t),
                before.spec_handles()[dirfd],
                path,
                flag,
                mode,
                Some(o),
            )
            ||| exists|mid: F|
                #[trigger] before.target_fs(t).spec_open_child(
                    &mid,
                    before.spec_handles()[dirfd],
                    path,
                    flag,
                    mode,
                    None,
                ) && mid.spec_open_with_handle(&self.target_fs(t), sub, flag, mode, o)
        } else {
            before.target_fs(t).spec_open_with_handle(&self.target_fs(t), sub, flag, mode, o)
        }
    }

    /// What `openat` did: nothing for an untracked directory descriptor;
    /// otherwise the open was routed, and a valid descriptor is tracked with
    /// its virtual path and the opened object it got, if any.
    pub open spec fn openat_outcome(
        &self,
        before: &Self,
        dirfd: i32,
        path: Seq<u8>,
        flag: i32,
        mode: u32,
        r: i32,
    ) -> bool {
        match openat_path(before.spec_fds(), before.spec_cwd(), dirfd, path) {
            None => r == -1 && *self == *before,
            Some(vp) => self.spec_fds() == (if r >= 0 {
                before.spec_fds().insert(r, vp)
            } else {
                before.spec_fds()
            }) && self.spec_offsets() == (if r >= 0 {
                before.spec_offsets().remove(r)
            } else {
                before.spec_offsets()
            }) && self.open_routed(before, vp, dirfd, path, flag, mode, r),
        }
    }

    /// The open of virtual path `vp` went to the filesystem that `vp` is
    /// routed to, as `opened_in` says, changed no other filesystem, and
    /// the descriptor keeps the opened object it got, if any.
    pub open spec fn open_routed(
        &self,
        before: &Self,
        vp: Seq<u8>,
        dirfd: i32,
        path: Seq<u8>,
        flag: i32,
        mode: u32,
        r: i32,
    ) -> bool {
        exists|t: Option<usize>, sub: Seq<u8>, o: OpenResult|
            #![trigger routed(before.mount_keys(), vp, t, sub), self.opened_in(before, dirfd, path, flag, mode, t, sub, o)]
            routed(before.mount_keys(), vp, t, sub) && self.others_unchanged(before, t) && o.fd == r
                && self.spec_handles() == handles_after(before.spec_handles(), r, o.opened)
                && self.opened_in(before, dirfd, path, flag, mode, t, sub, o)
    }

    fn open_in(&mut self, t: Option<usize>, sub: &[u8], flags: i32, mode: u32) -> (r: OpenResult)
        requires
            old(self).inv(),
            t matches Some(j) ==> j < old(self).mount_keys().len(),
            is_absolute(sub@),
        ensures
            final(self).inv(),
            final(self).same_table(&*old(self)),
            final(self).others_unchanged(&*old(self), t),
            old(self).target_fs(t).spec_open_with_handle(&final(self).target_fs(t), sub@, flags, mode, r),
    {
        match t {
            Some(j) => {
                let (key, mut fs) = self.mounts.remove(j);
                assert(fs == old(self).mount_fs()[j as int]);
                let r = fs.open_with_handle(sub, flags, mode);
                self.mounts.insert(j, (key, fs));
                assert(self.mount_keys() =~= old(self).mount_keys());
                assert(self.mount_fs() =~= old(self).mount_fs().update(j as int, fs));
                r
            },
            None => {
                let r = self.root.open_with_handle(sub, flags, mode);
                assert(self.mount_keys() =~= old(self).mount_keys());
                assert(self.mount_fs() =~= old(self).mount_fs());
                r
            },
        }
    }

    fn open_child_in(&mut self, t: Option<usize>, h: u64, path: &[u8], flags: i32, mode: u32) -> (r:
        Option<OpenResult>)
        requires
            old(self).inv(),
            t matches Some(j) ==> j < old(self).mount_keys().len(),
        ensures
            final(self).inv(),
            final(self).same_table(&*old(self)),
            final(self).others_unchanged(&*old(self), t),
            old(self).target_fs(t).spec_open_child(&final(self).target_fs(t), h, path@, flags, mode, r),
    {
        match t {
            Some(j) => {
                let (key, mut fs) = self.mounts.remove(j);
                assert(fs == old(self).mount_fs()[j as int]);
                let r = fs.open_child(h, path, flags, mode);
                self.mounts.insert(j, (key, fs));
                assert(self.mount_keys() =~= old(self).mount_keys());
                assert(self.mount_fs() =~= old(self).mount_fs().update(j as int, fs));
                r
            },
            None => {
                let r = self.root.open_child(h, path, flags, mode);
                assert(self.mount_keys() =~= old(self).mount_keys());
                assert(self.mount_fs() =~= old(self).mount_fs());
                r
            },
        }
    }

    fn mkdir_child_in(&mut self, t: Option<usize>, h: u64, path: &[u8], mode: u32) -> (r: Option<i32>)
        requires
            old(self).inv(),
            t matches Some(j) ==> j < old(self).mount_keys().len(),
        ensures
            final(self).inv(),
            final(self).same_table(&*old(self)),
            final(self).others_unchanged(&*old(self), t),
            old(self).target_fs(t).spec_mkdir_child(&final(self).target_fs(t), h, path@, mode, r),
    {
        match t {
            Some(j) => {
                let (key, mut fs) = self.mounts.remove(j);
                assert(fs == old(self).mount_fs()[j as int]);
                let r = fs.mkdir_child(h, path, mode);
                self.mounts.insert(j, (key, fs));
                assert(self.mount_keys() =~= old(self).mount_keys());
                assert(self.mount_fs() =~= old(self).mount_fs().update(j as int, fs));
                r
            },
            None => {
                let r = self.root.mkdir_child(h, path, mode);
                assert(self.mount_keys() =~= old(self).mount_keys());
                assert(self.mount_fs() =~= old(self).mount_fs());
                r
            },
        }
    }

    /// The filesystem that keeps the opened object of `dirfd`, for a
    /// relative `openat` or `mkdirat` of `path` routed to `t`: `Some` with
    /// the object exactly when `through_handle` holds.
    fn handle_route(&self, dirfd: i32, path: &[u8], t: Option<usize>) -> (r: Option<u64>)
        requires
            self.inv(),
        ensures
            r is Some <==> self.through_handle(dirfd, path@, t),
            r matches Some(h) ==> h == self.spec_handles()[dirfd],
    {
        if dirfd == AT_FDCWD || !can_resolve_relative_to_opened_node(path) {
            return None;
        }
        let dp = match self.fds.get(&dirfd) {
            Some(p) => p,
            None => return None,
        };
        let h = match self.handles.get(&dirfd) {
            Some(h) => *h,
            None => return None,
        };
        assert(self.spec_fds()[dirfd] == dp@);
        let (t2, s2) = self.route(dp.as_slice());
        let same = match (t2, t) {
            (Some(a), Some(b)) => a == b,
            (None, None) => true,
            _ => false,
        };
        proof {
            assert(routed(self.mount_keys(), self.spec_fds()[dirfd], t2, s2@));
            if !same {
                assert forall|s: Seq<u8>| !routed(self.mount_keys(), self.spec_fds()[dirfd], t, s) by {
                    if routed(self.mount_keys(), self.spec_fds()[dirfd], t, s) {
                        law_route_is_unique(self.mount_keys(), self.spec_fds()[dirfd], t, s, t2, s2@);
                    }
                }
            }
        }
        if same {
            Some(h)
        } else {
            None
        }
    }

    fn mkdir_in(&mut self, t: Option<usize>, sub: &[u8], mode: u32) -> (r: i32)
        requires
            old(self).inv(),
            t matches Some(j) ==> j < old(self).mount_keys().len(),
            is_absolute(sub@),
        ensures
            final(self).inv(),
            final(self).same_table(&*old(self)),
            final(self).others_unchanged(&*old(self), t),
            old(self).target_fs(t).spec_mkdir(&final(self).target_fs(t), sub@, mode, r),
    {
        match t {
            Some(j) => {
                let (key, mut fs) = self.mounts.remove(j);
                assert(fs == old(self).mount_fs()[j as int]);
                let r = fs.mkdir(sub, mode);
                self.mounts.insert(j, (key, fs));
                assert(self.mount_keys() =~= old(self).mount_keys());
                assert(self.mount_fs() =~= old(self).mount_fs().update(j as int, fs));
                r
            },
            None => {
                let r = self.root.mkdir(sub, mode);
                assert(self.mount_keys() =~= old(self).mount_keys());
                assert(self.mount_fs() =~= old(self).mount_fs());
                r
            },
        }
    }

    fn chmod_in(&mut self, t: Option<usize>, sub: &[u8], mode: u32) -> (r: i32)
        requires
            old(self).inv(),
            t matches Some(j) ==> j < old(self).mount_keys().len(),
            is_absolute(sub@),
        ensures
            final(self).inv(),
            final(self).same_table(&*old(self)),
            final(self).others_unchanged(&*old(self), t),
            old(self).target_fs(t).spec_chmod(&final(self).target_fs(t), sub@, mode, r),
    {
        match t {
            Some(j) => {
                let (key, mut fs) = self.mounts.remove(j);
                assert(fs == old(self).mount_fs()[j as int]);
                let r = fs.chmod(sub, mode);
                self.mounts.insert(j, (key, fs));
                assert(self.mount_keys() =~= old(self).mount_keys());
                assert(self.mount_fs() =~= old(self).mount_fs().update(j as int, fs));
                r
            },
            None => {
                let r = self.root.chmod(sub, mode);
                assert(self.mount_keys() =~= old(self).mount_keys());
                assert(self.mount_fs() =~= old(self).mount_fs());
                r
            },
        }
    }

    /// Opens `path` in the filesystem it is routed to, and tracks the
    /// descriptor under the virtual path, with the opened object the
    /// filesystem gave, when it opened.
    pub fn open(&mut self, path: &[u8], oflag: i32, mode: u32) -> (r: i32)
        requires
            old(self).inv(),
        ensures
            final(self).inv(),
            final(self).mount_keys() == old(self).mount_keys(),
            final(self).spec_cwd() == old(self).spec_cwd(),
            final(self).spec_fds() == (if r >= 0 {
                old(self).spec_fds().insert(r, resolved_path(old(self).spec_cwd(), path@))
            } else {
                old(self).spec_fds()
            }),
            final(self).spec_offsets() == (if r >= 0 {
                old(self).spec_offsets().remove(r)
            } else {
                old(self).spec_offsets()
            }),
            exists|t: Option<usize>, sub: Seq<u8>, o: OpenResult|
                routed(old(self).mount_keys(), resolved_path(old(self).spec_cwd(), path@), t, sub)
                    && final(self).others_unchanged(&*old(self), t) && o.fd == r
                    && final(self).spec_handles() == handles_after(old(self).spec_handles(), r, o.opened)
                    && old(self).target_fs(t).spec_open_with_handle(
                    &final(self).target_fs(t),
                    sub,
                    oflag,
                    mode,
                    o,
                ),
    {
        let virtual_path = self.resolve_path(path);
        let (t, sub) = self.route(virtual_path.as_slice());
        proof {
            lemma_normalize_absolute(path@);
            lemma_normalize_absolute(crate::path::join(self.spec_cwd(), path@));
            lemma_routed_absolute(self.mount_keys(), virtual_path@, t, sub@);
        }
        let ghost vp = virtual_path@;
        let o = self.open_in(t, sub.as_slice(), oflag, mode);
        let ghost g = o;
        let r = self.track_fd(o.fd, virtual_path, o.opened);
        assert(routed(old(self).mount_keys(), vp, t, sub@));
        assert(self.others_unchanged(&*old(self), t));
        assert(old(self).target_fs(t).spec_open_with_handle(&self.target_fs(t), sub@, oflag, mode, g));
        r
    }

    /// Opens `path` relative to `dirfd` (the working directory for
    /// `AT_FDCWD`, the directory a tracked descriptor opened otherwise): a
    /// relative path without `..` goes through the opened object of the
    /// descriptor, when it has one, so that it follows the directory after a
    /// rename; other paths, or when that gives no answer, go by the virtual
    /// path. An untracked descriptor gives -1.
    pub fn openat(&mut self, dirfd: i32, path: &[u8], flag: i32, mode: u32) -> (r: i32)
        requires
            old(self).inv(),
        ensures
            final(self).inv(),
            final(self).mount_keys() == old(self).mount_keys(),
            final(self).spec_cwd() == old(self).spec_cwd(),
            final(self).openat_outcome(&*old(self), dirfd, path@, flag, mode, r),
    {
        let virtual_path = match self.resolve_openat_path(dirfd, path) {
            Some(p) => p,
            None => return -1,
        };
        let (t, sub) = self.route(virtual_path.as_slice());
        proof {
            lemma_normalize_absolute(path@);
            lemma_normalize_absolute(crate::path::join(self.spec_cwd(), path@));
            if self.spec_fds().contains_key(dirfd) {
                lemma_normalize_absolute(crate::path::join(self.spec_fds()[dirfd], path@));
            }
            lemma_routed_absolute(self.mount_keys(), virtual_path@, t, sub@);
        }
        let ghost vp = virtual_path@;
        assert(openat_path(old(self).spec_fds(), old(self).spec_cwd(), dirfd, path@) == Some(vp));
        let via = self.handle_route(dirfd, path, t);
        let ghost s0 = *self;
        let o = match via {
            Some(h) => match self.open_child_in(t, h, path, flag, mode) {
                Some(o) => o,
                None => {
                    let ghost mid = self.target_fs(t);
                    let ghost s1 = *self;
                    let o = self.open_in(t, sub.as_slice(), flag, mode);
                    assert(s0.target_fs(t).spec_open_child(&mid, h, path@, flag, mode, None));
                    assert(mid.spec_open_with_handle(&self.target_fs(t), sub@, flag, mode, o));
                    assert(self.others_unchanged(&s0, t)) by {
                        assert(s1.others_unchanged(&s0, t));
                        assert(self.others_unchanged(&s1, t));
                        assert(s1.mount_fs().len() == s0.mount_fs().len());
                    }
                    o
                },
            },
            None => self.open_in(t, sub.as_slice(), flag, mode),
        };
        let ghost g = o;
        assert(self.spec_fds() == old(self).spec_fds());
        assert(self.spec_handles() == old(self).spec_handles());
        assert(self.opened_in(&*old(self), dirfd, path@, flag, mode, t, sub@, g));
        let r = self.track_fd(o.fd, virtual_path, o.opened);
        assert(routed(old(self).mount_keys(), vp, t, sub@));
        assert(self.others_unchanged(&*old(self), t));
        assert(self.opened_in(&*old(self), dirfd, path@, flag, mode, t, sub@, g));
        assert(self.spec_fds() == (if r >= 0 {
            old(self).spec_fds().insert(r, vp)
        } else {
            old(self).spec_fds()
        }));
        assert(self.spec_offsets() == (if r >= 0 {
            old(self).spec_offsets().remove(r)
        } else {
            old(self).spec_offsets()
        }));
        assert(g.fd == r);
        assert(self.spec_handles() == handles_after(old(self).spec_handles(), r, g.opened));
        assert(self.open_routed(&*old(self), vp, dirfd, path@, flag, mode, r)) by {
            assert(routed(old(self).mount_keys(), vp, t, sub@));
            assert(self.opened_in(&*old(self), dirfd, path@, flag, mode, t, sub@, g));
        }
        assert(self.openat_outcome(&*old(self), dirfd, path@, flag, mode, r));
        r
    }

    /// Creates the directory `path` in the filesystem it is routed to.
    pub fn mkdir(&mut self, path: &[u8], mode: u32) -> (r: i32)
        requires
            old(self).inv(),
        ensures
            final(self).inv(),
            final(self).same_table(&*old(self)),
            exists|t: Option<usize>, sub: Seq<u8>|
                routed(old(self).mount_keys(), resolved_path(old(self).spec_cwd(), path@), t, sub)
                    && final(self).others_unchanged(&*old(self), t) && old(self).target_fs(t).spec_mkdir(
                    &final(self).target_fs(t),
                    sub,
                    mode,
                    r,
                ),
    {
        let p = self.resolve_path(path);
        let (t, sub) = self.route(p.as_slice());
        proof {
            lemma_normalize_absolute(path@);
            lemma_normalize_absolute(crate::path::join(self.spec_cwd(), path@));
            lemma_routed_absolute(self.mount_keys(), p@, t, sub@);
        }
        let r = self.mkdir_in(t, sub.as_slice(), mode);
        assert(routed(old(self).mount_keys(), p@, t, sub@));
        r
    }

    /// Changes the mode of `path` in the filesystem it is routed to.
    pub fn chmod(&mut self, path: &[u8], mode: u32) -> (r: i32)
        requires
            old(self).inv(),
        ensures
            final(self).inv(),
            final(self).same_table(&*old(self)),
            exists|t: Option<usize>, sub: Seq<u8>|
                routed(old(self).mount_keys(), resolved_path(old(self).spec_cwd(), path@), t, sub)
                    && final(self).others_unchanged(&*old(self), t) && old(self).target_fs(t).spec_chmod(
                    &final(self).target_fs(t),
                    sub,
                    mode,
                    r,
                ),
    {
        let p = self.resolve_path(path);
        let (t, sub) = self.route(p.as_slice());
        proof {
            lemma_normalize_absolute(path@);
            lemma_normalize_absolute(crate::path::join(self.spec_cwd(), path@));
            lemma_routed_absolute(self.mount_keys(), p@, t, sub@);
        }
        let r = self.chmod_in(t, sub.as_slice(), mode);
        assert(routed(old(self).mount_keys(), p@, t, sub@));
        r
    }
}


impl<F: LowLevelFS> RootVFS<F> {
    /// The filesystem that route `t` leads to.
    fn target(&self, t: Option<usize>) -> (r: &F)
        requires
            t matches Some(j) ==> j < self.mount_fs().len(),
        ensures
            *r == self.target_fs(t),
    {
        match t {
            Some(j) => {
                assert(self.mount_fs()[j as int] == self.mounts@[j as int].1);
                &self.mounts[j].1
            },
            None => &self.root,
        }
    }

    fn unlink_in(&mut self, t: Option<usize>, sub: &[u8], dir: bool) -> (r: i32)
        requires
            old(self).inv(),
            t matches Some(j) ==> j < old(self).mount_keys().len(),
            is_absolute(sub@),
        ensures
            final(self).inv(),
            final(self).same_table(&*old(self)),
            final(self).others_unchanged(&*old(self), t),
            dir ==> old(self).target_fs(t).spec_rmdir(&final(self).target_fs(t), sub@, r),
            !dir ==> old(self).target_fs(t).spec_unlink(&final(self).target_fs(t), sub@, r),
    {
        match t {
            Some(j) => {
                let (key, mut fs) = self.mounts.remove(j);
                assert(fs == old(self).mount_fs()[j as int]);
                let r = if dir {
                    fs.rmdir(sub)
                } else {
                    fs.unlink(sub)
                };
                self.mounts.insert(j, (key, fs));
                assert(self.mount_keys() =~= old(self).mount_keys());
                assert(self.mount_fs() =~= old(self).mount_fs().update(j as int, fs));
                r
            },
            None => {
                let r = if dir {
                    self.root.rmdir(sub)
                } else {
                    self.root.unlink(sub)
                };
                assert(self.mount_keys() =~= old(self).mount_keys());
                assert(self.mount_fs() =~= old(self).mount_fs());
                r
            },
        }
    }

    fn rename_in(&mut self, t: Option<usize>, from: &[u8], to: &[u8]) -> (r: i32)
        requires
            old(self).inv(),
            t matches Some(j) ==> j < old(self).mount_keys().len(),
            is_absolute(from@),
            is_absolute(to@),
        ensures
            final(self).inv(),
            final(self).same_table(&*old(self)),
            final(self).others_unchanged(&*old(self), t),
            old(self).target_fs(t).spec_rename(&final(self).target_fs(t), from@, to@, r),
    {
        match t {
            Some(j) => {
                let (key, mut fs) = self.mounts.remove(j);
                assert(fs == old(self).mount_fs()[j as int]);
                let r = fs.rename(from, to);
                self.mounts.insert(j, (key, fs));
                assert(self.mount_keys() =~= old(self).mount_keys());
                assert(self.mount_fs() =~= old(self).mount_fs().update(j as int, fs));
                r
            },
            None => {
                let r = self.root.rename(from, to);
                assert(self.mount_keys() =~= old(self).mount_keys());
                assert(self.mount_fs() =~= old(self).mount_fs());
                r
            },
        }
    }

    /// Fills `statbuf` for the virtual path `vp`.
    fn stat_virtual(&self, vp: &[u8], statbuf: &mut Stat) -> (r: i32)
        requires
            self.inv(),
            is_absolute(vp@),
        ensures
            exists|t: Option<usize>, sub: Seq<u8>|
                routed(self.mount_keys(), vp@, t, sub) && self.target_fs(t).spec_stat(
                    sub,
                    *old(statbuf),
                    r,
                    *final(statbuf),
                ),
    {
        let (t, sub) = self.route(vp);
        proof {
            lemma_routed_absolute(self.mount_keys(), vp@, t, sub@);
        }
        let f = self.target(t);
        let r = f.stat(sub.as_slice(), statbuf);
        assert(routed(self.mount_keys(), vp@, t, sub@));
        r
    }

    /// The entries of the directory at virtual path `vp`.
    fn read_dir_virtual(&self, vp: &[u8]) -> (r: Option<Vec<VfsDirEntry>>)
        requires
            self.inv(),
            is_absolute(vp@),
        ensures
            exists|t: Option<usize>, sub: Seq<u8>|
                routed(self.mount_keys(), vp@, t, sub) && self.target_fs(t).spec_read_dir(
                    sub,
                    listing_view(r),
                ),
    {
        let (t, sub) = self.route(vp);
        proof {
            lemma_routed_absolute(self.mount_keys(), vp@, t, sub@);
        }
        let f = self.target(t);
        let r = f.read_dir(sub.as_slice());
        assert(routed(self.mount_keys(), vp@, t, sub@));
        r
    }

    /// Removes the entry at virtual path `vp`: a directory when `dir`.
    fn unlink_virtual(&mut self, vp: &[u8], dir: bool) -> (r: i32)
        requires
            old(self).inv(),
            is_absolute(vp@),
        ensures
            final(self).inv(),
            final(self).same_table(&*old(self)),
            exists|t: Option<usize>, sub: Seq<u8>|
                routed(old(self).mount_keys(), vp@, t, sub) && final(self).others_unchanged(
                    &*old(self),
                    t,
                ) && (dir ==> old(self).target_fs(t).spec_rmdir(&final(self).target_fs(t), sub, r))
                    && (!dir ==> old(self).target_fs(t).spec_unlink(
                    &final(self).target_fs(t),
                    sub,
                    r,
                )),
    {
        let (t, sub) = self.route(vp);
        proof {
            lemma_routed_absolute(self.mount_keys(), vp@, t, sub@);
        }
        let r = self.unlink_in(t, sub.as_slice(), dir);
        assert(routed(old(self).mount_keys(), vp@, t, sub@));
        r
    }

    /// Renames virtual path `from` to `to`: within the filesystem both are
    /// routed to; -1, with nothing changed, when they go to different ones.
    fn rename_virtual(&mut self, from: &[u8], to: &[u8]) -> (r: i32)
        requires
            old(self).inv(),
            is_absolute(from@),
            is_absolute(to@),
        ensures
            final(self).inv(),
            old(self).rename_outcome(&*final(self), from@, to@, r),
    {
        let (t1, sub1) = self.route(from);
        let (t2, sub2) = self.route(to);
        proof {
            lemma_routed_absolute(self.mount_keys(), from@, t1, sub1@);
            lemma_routed_absolute(self.mount_keys(), to@, t2, sub2@);
        }
        if t1 != t2 {
            assert(routed(old(self).mount_keys(), from@, t1, sub1@));
            assert(routed(old(self).mount_keys(), to@, t2, sub2@));
            return -1;
        }
        let r = self.rename_in(t1, sub1.as_slice(), sub2.as_slice());
        assert(routed(old(self).mount_keys(), from@, t1, sub1@));
        assert(routed(old(self).mount_keys(), to@, t2, sub2@));
        r
    }

    /// What renaming virtual path `from` to `to` did: within the filesystem
    /// both are routed to; -1, with nothing changed, when they go to
    /// different ones.
    pub open spec fn rename_outcome(&self, post: &Self, from: Seq<u8>, to: Seq<u8>, r: i32) -> bool {
        exists|t1: Option<usize>, s1: Seq<u8>, t2: Option<usize>, s2: Seq<u8>|
            #![trigger routed(self.mount_keys(), from, t1, s1), routed(self.mount_keys(), to, t2, s2)]
            {
                &&& routed(self.mount_keys(), from, t1, s1)
                &&& routed(self.mount_keys(), to, t2, s2)
                &&& if t1 == t2 {
                    &&& post.same_table(self)
                    &&& post.others_unchanged(self, t1)
                    &&& self.target_fs(t1).spec_rename(&post.target_fs(t1), s1, s2, r)
                } else {
                    r == -1 && *post == *self
                }
            }
    }

    /// Fills `statbuf` for `path`, in the filesystem it is routed to.
    pub fn stat(&self, path: &[u8], statbuf: &mut Stat) -> (r: i32)
        requires
            self.inv(),
        ensures
            exists|t: Option<usize>, sub: Seq<u8>|
                routed(self.mount_keys(), resolved_path(self.spec_cwd(), path@), t, sub)
                    && self.target_fs(t).spec_stat(sub, *old(statbuf), r, *final(statbuf)),
    {
        let p = self.resolve_path(path);
        proof {
            lemma_normalize_absolute(path@);
            lemma_normalize_absolute(crate::path::join(self.spec_cwd(), path@));
        }
        self.stat_virtual(p.as_slice(), statbuf)
    }

    /// What `fstat` of descriptor `fd`, whose path is routed to `t` and
    /// `sub`, gives: the record of its opened object when the filesystem
    /// keeps one for it; otherwise the record of its virtual path.
    pub open spec fn fd_stat(&self, fd: i32, t: Option<usize>, sub: Seq<u8>, before: Stat, r: i32, after: Stat) -> bool {
        if self.spec_handles().contains_key(fd) {
            ||| self.target_fs(t).spec_stat_opened(self.spec_handles()[fd], before, Some(r), after)
            ||| exists|mid: Stat|
                #[trigger] self.target_fs(t).spec_stat_opened(self.spec_handles()[fd], before, None, mid)
                    && self.target_fs(t).spec_stat(sub, mid, r, after)
        } else {
            self.target_fs(t).spec_stat(sub, before, r, after)
        }
    }

    /// Fills `statbuf` for the tracked descriptor `fd`: from the opened
    /// object it holds, so that it keeps describing what it opened after a
    /// rename or an unlink; by its virtual path when it holds none or the
    /// filesystem keeps none. `None`, leaving `statbuf` alone, for an
    /// untracked descriptor.
    pub fn fstat(&self, fd: i32, statbuf: &mut Stat) -> (r: Option<i32>)
        requires
            self.inv(),
        ensures
            !self.spec_fds().contains_key(fd) ==> r is None && *final(statbuf) == *old(statbuf),
            self.spec_fds().contains_key(fd) ==> r is Some && exists|t: Option<usize>, sub: Seq<u8>|
                #![trigger routed(self.mount_keys(), self.spec_fds()[fd], t, sub)]
                routed(self.mount_keys(), self.spec_fds()[fd], t, sub) && self.fd_stat(
                    fd,
                    t,
                    sub,
                    *old(statbuf),
                    r.unwrap(),
                    *final(statbuf),
                ),
    {
        let p = match self.fds.get(&fd) {
            Some(p) => p,
            None => return None,
        };
        assert(self.spec_fds()[fd] == p@);
        proof {
            assert(self.tracked_absolute());
            assert(self.fds@.contains_key(fd));
        }
        let (t, sub) = self.route(p.as_slice());
        proof {
            lemma_routed_absolute(self.mount_keys(), p@, t, sub@);
        }
        let f = self.target(t);
        let ghost before = *statbuf;
        let r = match self.handles.get(&fd) {
            Some(h) => match f.stat_opened(*h, statbuf) {
                Some(r) => r,
                None => {
                    let ghost mid = *statbuf;
                    let r = f.stat(sub.as_slice(), statbuf);
                    assert(f.spec_stat_opened(*h, before, None, mid));
                    r
                },
            },
            None => f.stat(sub.as_slice(), statbuf),
        };
        assert(self.fd_stat(fd, t, sub@, before, r, *statbuf));
        assert(routed(self.mount_keys(), self.spec_fds()[fd], t, sub@));
        Some(r)
    }

    /// The entries of the directory `path`, from the filesystem it is
    /// routed to.
    pub fn read_dir(&self, path: &[u8]) -> (r: Option<Vec<VfsDirEntry>>)
        requires
            self.inv(),
        ensures
            exists|t: Option<usize>, sub: Seq<u8>|
                routed(self.mount_keys(), resolved_path(self.spec_cwd(), path@), t, sub)
                    && self.target_fs(t).spec_read_dir(sub, listing_view(r)),
    {
        let p = self.resolve_path(path);
        proof {
            lemma_normalize_absolute(path@);
            lemma_normalize_absolute(crate::path::join(self.spec_cwd(), path@));
        }
        self.read_dir_virtual(p.as_slice())
    }

    /// Removes the file `path` in the filesystem it is routed to.
    pub fn unlink(&mut self, path: &[u8]) -> (r: i32)
        requires
            old(self).inv(),
        ensures
            final(self).inv(),
            final(self).same_table(&*old(self)),
            exists|t: Option<usize>, sub: Seq<u8>|
                routed(old(self).mount_keys(), resolved_path(old(self).spec_cwd(), path@), t, sub)
                    && final(self).others_unchanged(&*old(self), t) && old(self).target_fs(
                    t,
                ).spec_unlink(&final(self).target_fs(t), sub, r),
    {
        let p = self.resolve_path(path);
        proof {
            lemma_normalize_absolute(path@);
            lemma_normalize_absolute(crate::path::join(self.spec_cwd(), path@));
        }
        self.unlink_virtual(p.as_slice(), false)
    }

    /// Removes the directory `path` in the filesystem it is routed to.
    pub fn rmdir(&mut self, path: &[u8]) -> (r: i32)
        requires
            old(self).inv(),
        ensures
            final(self).inv(),
            final(self).same_table(&*old(self)),
            exists|t: Option<usize>, sub: Seq<u8>|
                routed(old(self).mount_keys(), resolved_path(old(self).spec_cwd(), path@), t, sub)
                    && final(self).others_unchanged(&*old(self), t) && old(self).target_fs(
                    t,
                ).spec_rmdir(&final(self).target_fs(t), sub, r),
    {
        let p = self.resolve_path(path);
        proof {
            lemma_normalize_absolute(path@);
            lemma_normalize_absolute(crate::path::join(self.spec_cwd(), path@));
        }
        self.unlink_virtual(p.as_slice(), true)
    }

    /// Renames `old_path` to `new_path`.
    pub fn rename(&mut self, old_path: &[u8], new_path: &[u8]) -> (r: i32)
        requires
            old(self).inv(),
        ensures
            final(self).inv(),
            old(self).rename_outcome(
                &*final(self),
                resolved_path(old(self).spec_cwd(), old_path@),
                resolved_path(old(self).spec_cwd(), new_path@),
                r,
            ),
    {
        let from = self.resolve_path(old_path);
        let to = self.resolve_path(new_path);
        proof {
            lemma_normalize_absolute(old_path@);
            lemma_normalize_absolute(crate::path::join(self.spec_cwd(), old_path@));
            lemma_normalize_absolute(new_path@);
            lemma_normalize_absolute(crate::path::join(self.spec_cwd(), new_path@));
        }
        self.rename_virtual(from.as_slice(), to.as_slice())
    }

    /// Tracks `new_fd` as a duplicate of `fd`: under the same virtual path
    /// and directory position when `fd` is tracked, not at all otherwise.
    /// The duplicate holds no opened object of its own (one object is given
    /// back once, when `fd` is forgotten), so it goes by the virtual path.
    pub fn clone_fd(&mut self, fd: i32, new_fd: i32)
        requires
            old(self).inv(),
        ensures
            final(self).inv(),
            final(self).spec_root() == old(self).spec_root(),
            final(self).mount_keys() == old(self).mount_keys(),
            final(self).mount_fs() == old(self).mount_fs(),
            final(self).spec_cwd() == old(self).spec_cwd(),
            final(self).spec_fds() == (if old(self).spec_fds().contains_key(fd) {
                old(self).spec_fds().insert(new_fd, old(self).spec_fds()[fd])
            } else {
                old(self).spec_fds().remove(new_fd)
            }),
            final(self).spec_offsets() == (if old(self).spec_offsets().contains_key(fd) {
                old(self).spec_offsets().insert(new_fd, old(self).spec_offsets()[fd])
            } else {
                old(self).spec_offsets().remove(new_fd)
            }),
            final(self).spec_handles() == old(self).spec_handles().remove(new_fd),
    {
        let path = match self.fds.get(&fd) {
            Some(p) => Some(p.clone()),
            None => None,
        };
        let offset = match self.offsets.get(&fd) {
            Some(o) => Some(*o),
            None => None,
        };
        match path {
            Some(p) => {
                let ghost pv = p@;
                self.fds.insert(new_fd, p);
                assert(self.spec_fds() =~= old(self).spec_fds().insert(new_fd, pv));
            },
            None => {
                self.fds.remove(&new_fd);
                assert(self.spec_fds() =~= old(self).spec_fds().remove(new_fd));
            },
        }
        match offset {
            Some(o) => {
                self.offsets.insert(new_fd, o);
            },
            None => {
                self.offsets.remove(&new_fd);
            },
        }
        self.handles.remove(&new_fd);
        assert(self.mount_keys() =~= old(self).mount_keys());
        assert(self.mount_fs() =~= old(self).mount_fs());
    }

    /// What a `mkdirat` routed to `t` and `sub` did in that filesystem:
    /// through the opened object of `dirfd` when `through_handle` holds and
    /// that creation answered; otherwise by path (after the attempt through
    /// the object, when there was one).
    pub open spec fn made_in(
        &self,
        before: &Self,
        dirfd: i32,
        path: Seq<u8>,
        mode: u32,
        t: Option<usize>,
        sub: Seq<u8>,
        r: i32,
    ) -> bool {
        if before.through_handle(dirfd, path, t) {
            ||| before.target_fs(t).spec_mkdir_child(
                &self.target_fs(t),
                before.spec_handles()[dirfd],
                path,
                mode,
                Some(r),
            )
            ||| exists|mid: F|
                #[trigger] before.target_fs(t).spec_mkdir_child(
                    &mid,
                    before.spec_handles()[dirfd],
                    path,
                    mode,
                    None,
                ) && mid.spec_mkdir(&self.target_fs(t), sub, mode, r)
        } else {
            before.target_fs(t).spec_mkdir(&self.target_fs(t), sub, mode, r)
        }
    }

    /// Creates the directory `path` relative to `dirfd`, as `openat` resolves
    /// it, and, as `openat` does, through the opened object of `dirfd` for a
    /// relative path without `..`; -1, with nothing changed, when it names
    /// nothing.
    pub fn mkdirat(&mut self, dirfd: i32, path: &[u8], mode: u32) -> (r: i32)
        requires
            old(self).inv(),
        ensures
            final(self).inv(),
            match openat_path(old(self).spec_fds(), old(self).spec_cwd(), dirfd, path@) {
                None => r == -1 && *final(self) == *old(self),
                Some(vp) => final(self).same_table(&*old(self)) && exists|t: Option<usize>, sub: Seq<u8>|
                    #![trigger routed(old(self).mount_keys(), vp, t, sub)]
                    routed(old(self).mount_keys(), vp, t, sub) && final(self).others_unchanged(
                        &*old(self),
                        t,
                    ) && final(self).made_in(&*old(self), dirfd, path@, mode, t, sub, r),
            },
    {
        let vp = match self.resolve_openat_path(dirfd, path) {
            Some(p) => p,
            None => return -1,
        };
        proof {
            lemma_openat_path_absolute(self.spec_fds(), self.spec_cwd(), dirfd, path@);
        }
        let (t, sub) = self.route(vp.as_slice());
        proof {
            lemma_routed_absolute(self.mount_keys(), vp@, t, sub@);
        }
        let via = self.handle_route(dirfd, path, t);
        let ghost s0 = *self;
        let r = match via {
            Some(h) => match self.mkdir_child_in(t, h, path, mode) {
                Some(r) => r,
                None => {
                    let ghost mid = self.target_fs(t);
                    let ghost s1 = *self;
                    let r = self.mkdir_in(t, sub.as_slice(), mode);
                    assert(s0.target_fs(t).spec_mkdir_child(&mid, h, path@, mode, None));
                    assert(mid.spec_mkdir(&self.target_fs(t), sub@, mode, r));
                    assert(self.others_unchanged(&s0, t)) by {
                        assert(s1.others_unchanged(&s0, t));
                        assert(self.others_unchanged(&s1, t));
                    }
                    r
                },
            },
            None => self.mkdir_in(t, sub.as_slice(), mode),
        };
        assert(self.made_in(&*old(self), dirfd, path@, mode, t, sub@, r));
        assert(routed(old(self).mount_keys(), vp@, t, sub@));
        r
    }

    /// Removes `path` relative to `dirfd`, as `openat` resolves it: a
    /// directory when `flags` has `AT_REMOVEDIR`, a file otherwise; -1, with
    /// nothing changed, when it names nothing.
    pub fn unlinkat(&mut self, dirfd: i32, path: &[u8], flags: i32) -> (r: i32)
        requires
            old(self).inv(),
        ensures
            final(self).inv(),
            match openat_path(old(self).spec_fds(), old(self).spec_cwd(), dirfd, path@) {
                None => r == -1 && *final(self) == *old(self),
                Some(vp) => final(self).same_table(&*old(self)) && exists|t: Option<usize>, sub: Seq<u8>|
                    #![trigger routed(old(self).mount_keys(), vp, t, sub)]
                    routed(old(self).mount_keys(), vp, t, sub) && final(self).others_unchanged(
                        &*old(self),
                        t,
                    ) && (flags & AT_REMOVEDIR != 0 ==> old(self).target_fs(t).spec_rmdir(
                        &final(self).target_fs(t),
                        sub,
                        r,
                    )) && (flags & AT_REMOVEDIR == 0 ==> old(self).target_fs(t).spec_unlink(
                        &final(self).target_fs(t),
                        sub,
                        r,
                    )),
            },
    {
        let vp = match self.resolve_openat_path(dirfd, path) {
            Some(p) => p,
            None => return -1,
        };
        proof {
            lemma_openat_path_absolute(self.spec_fds(), self.spec_cwd(), dirfd, path@);
        }
        self.unlink_virtual(vp.as_slice(), flags & AT_REMOVEDIR != 0)
    }

    /// Renames `old_path` relative to `olddirfd` to `new_path` relative to
    /// `newdirfd`, as `openat` resolves them; -1, with nothing changed, when
    /// either names nothing.
    pub fn renameat(&mut self, olddirfd: i32, old_path: &[u8], newdirfd: i32, new_path: &[u8]) -> (r:
        i32)
        requires
            old(self).inv(),
        ensures
            final(self).inv(),
            match (
                openat_path(old(self).spec_fds(), old(self).spec_cwd(), olddirfd, old_path@),
                openat_path(old(self).spec_fds(), old(self).spec_cwd(), newdirfd, new_path@),
            ) {
                (Some(from), Some(to)) => old(self).rename_outcome(&*final(self), from, to, r),
                _ => r == -1 && *final(self) == *old(self),
            },
    {
        let from = match self.resolve_openat_path(olddirfd, old_path) {
            Some(p) => p,
            None => return -1,
        };
        let to = match self.resolve_openat_path(newdirfd, new_path) {
            Some(p) => p,
            None => return -1,
        };
        proof {
            lemma_openat_path_absolute(self.spec_fds(), self.spec_cwd(), olddirfd, old_path@);
            lemma_openat_path_absolute(self.spec_fds(), self.spec_cwd(), newdirfd, new_path@);
        }
        self.rename_virtual(from.as_slice(), to.as_slice())
    }

    /// What descriptor `fd`, whose path is routed to `t` and `sub`, lists:
    /// the entries of its opened object when the filesystem keeps one for
    /// it; otherwise the entries of its virtual path.
    pub open spec fn fd_listing(&self, fd: i32, t: Option<usize>, sub: Seq<u8>, l: Option<Seq<VfsDirEntry>>) -> bool {
        if self.spec_handles().contains_key(fd) {
            ||| self.target_fs(t).spec_read_dir_opened(self.spec_handles()[fd], Some(l))
            ||| self.target_fs(t).spec_read_dir_opened(self.spec_handles()[fd], None)
                && self.target_fs(t).spec_read_dir(sub, l)
        } else {
            self.target_fs(t).spec_read_dir(sub, l)
        }
    }

    /// The entries that descriptor `fd`, tracked under the virtual path
    /// `vp`, lists.
    fn read_dir_fd(&self, fd: i32, vp: &[u8]) -> (r: Option<Vec<VfsDirEntry>>)
        requires
            self.inv(),
            is_absolute(vp@),
        ensures
            exists|t: Option<usize>, sub: Seq<u8>|
                routed(self.mount_keys(), vp@, t, sub) && self.fd_listing(fd, t, sub, listing_view(r)),
    {
        let (t, sub) = self.route(vp);
        proof {
            lemma_routed_absolute(self.mount_keys(), vp@, t, sub@);
        }
        let f = self.target(t);
        let r = match self.handles.get(&fd) {
            Some(h) => match f.read_dir_opened(*h) {
                Some(l) => l,
                None => f.read_dir(sub.as_slice()),
            },
            None => f.read_dir(sub.as_slice()),
        };
        assert(routed(self.mount_keys(), vp@, t, sub@));
        assert(self.fd_listing(fd, t, sub@, listing_view(r)));
        r
    }

    /// The next directory records of the tracked descriptor `fd`, from the
    /// position it reached: `.` and `..` first, then the entries of what it
    /// opened (of its opened object when the filesystem keeps one, of its
    /// virtual path otherwise), as many as fit in `count` bytes; the
    /// position moves past them. `None`, with nothing changed, when `fd` is
    /// untracked, its filesystem does not list that directory, or the record
    /// offsets would not fit in a `usize`.
    pub fn getdents64(&mut self, fd: i32, count: i32) -> (r: Option<(Vec<u8>, WriteDirentsResult)>)
        requires
            old(self).inv(),
        ensures
            final(self).inv(),
            r is None ==> *final(self) == *old(self),
            r is None ==> {
                ||| !old(self).spec_fds().contains_key(fd)
                ||| exists|t: Option<usize>, sub: Seq<u8>|
                    #![trigger routed(old(self).mount_keys(), old(self).spec_fds()[fd], t, sub)]
                    routed(old(self).mount_keys(), old(self).spec_fds()[fd], t, sub)
                        && old(self).fd_listing(fd, t, sub, None)
                ||| exists|t: Option<usize>, sub: Seq<u8>, d: Seq<VfsDirEntry>, e: Seq<VfsDirEntry>|
                    #![trigger
                        routed(old(self).mount_keys(), old(self).spec_fds()[fd], t, sub),
                        old(self).fd_listing(fd, t, sub, Some(e)),
                        is_dot_listing(d),
                    ]
                    {
                        &&& is_dot_listing(d)
                        &&& routed(old(self).mount_keys(), old(self).spec_fds()[fd], t, sub)
                        &&& old(self).fd_listing(fd, t, sub, Some(e))
                        &&& dirents_unencodable(
                            d + e,
                            position(old(self).spec_offsets(), fd, (d + e).len()),
                        )
                    }
            },
            r matches Some((bytes, res)) ==> {
                &&& old(self).spec_fds().contains_key(fd)
                &&& final(self).spec_root() == old(self).spec_root()
                &&& final(self).mount_keys() == old(self).mount_keys()
                &&& final(self).mount_fs() == old(self).mount_fs()
                &&& final(self).spec_cwd() == old(self).spec_cwd()
                &&& final(self).spec_fds() == old(self).spec_fds()
                &&& final(self).spec_handles() == old(self).spec_handles()
                &&& exists|t: Option<usize>, sub: Seq<u8>, d: Seq<VfsDirEntry>, e: Seq<VfsDirEntry>|
                    #![trigger
                        routed(old(self).mount_keys(), old(self).spec_fds()[fd], t, sub),
                        old(self).fd_listing(fd, t, sub, Some(e)),
                        is_dot_listing(d),
                    ]
                    {
                        let all = d + e;
                        let pos = position(old(self).spec_offsets(), fd, all.len());
                        &&& is_dot_listing(d)
                        &&& routed(old(self).mount_keys(), old(self).spec_fds()[fd], t, sub)
                        &&& old(self).fd_listing(fd, t, sub, Some(e))
                        &&& dirents_written(
                            old(self).spec_fds()[fd],
                            all.subrange(pos as int, all.len() as int),
                            pos,
                            count,
                            bytes@,
                            res,
                        )
                        &&& final(self).spec_offsets() == old(self).spec_offsets().insert(
                            fd,
                            (pos + res.entries_consumed) as usize,
                        )
                    }
            },
    {
        let path = match self.fds.get(&fd) {
            Some(p) => p.clone(),
            None => return None,
        };
        assert(self.spec_fds()[fd] == path@);
        assert(self.spec_fds().contains_key(fd));
        proof {
            assert(self.tracked_absolute());
            assert(self.fds@.contains_key(fd));
        }
        let listed = self.read_dir_fd(fd, path.as_slice());
        let entries = match listed {
            Some(e) => e,
            None => return None,
        };
        let ghost e0 = entries@;
        let ghost (t0, sub0) = choose|t: Option<usize>, sub: Seq<u8>|
            routed(self.mount_keys(), path@, t, sub) && self.fd_listing(fd, t, sub, Some(e0));
        let mut all = dot_entry_list();
        let ghost d = all@;
        let mut entries = entries;
        all.append(&mut entries);
        assert(all@ =~= d + e0);
        let pos: usize = match self.offsets.get(&fd) {
            Some(o) => if *o < all.len() {
                *o
            } else {
                all.len()
            },
            None => 0,
        };
        assert(pos == position(self.spec_offsets(), fd, all@.len()));
        let ghost all0 = all@;
        let rest = all.split_off(pos);
        assert(rest@ == all0.subrange(pos as int, all0.len() as int));
        if pos >= usize::MAX - rest.len() {
            assert(dirents_unencodable(d + e0, position(self.spec_offsets(), fd, (d + e0).len())));
            return None;
        }
        let (bytes, res) = write_dirents64(path.as_slice(), rest.as_slice(), pos, count);
        let ghost before = self.spec_offsets();
        proof {
            lemma_dirents_consumed(path@, rest@, pos as nat, count, bytes@, res);
        }
        let next = pos + res.entries_consumed;
        self.offsets.insert(fd, next);
        assert(self.mount_keys() =~= old(self).mount_keys());
        assert(self.mount_fs() =~= old(self).mount_fs());
        Some((bytes, res))
    }
}

/// The record offsets of a listing of `all` from `pos` on would not fit in
/// a `usize`.
pub open spec fn dirents_unencodable(all: Seq<VfsDirEntry>, pos: nat) -> bool {
    pos >= usize::MAX - (all.len() - pos)
}

/// The opened objects after descriptor `fd` opened (when not negative),
/// with the opened object `opened` or none.
pub open spec fn handles_after(handles: Map<i32, u64>, fd: i32, opened: Option<u64>) -> Map<i32, u64> {
    if fd >= 0 {
        match opened {
            Some(h) => handles.insert(fd, h),
            None => handles.remove(fd),
        }
    } else {
        handles
    }
}

/// Where descriptor `fd` stands in a listing of `len` entries: the
/// position it reached (at most the end), or the start.
pub open spec fn position(offsets: Map<i32, usize>, fd: i32, len: nat) -> nat {
    if offsets.contains_key(fd) {
        if offsets[fd] < len {
            offsets[fd] as nat
        } else {
            len
        }
    } else {
        0
    }
}

} // verus!
