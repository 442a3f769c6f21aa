//! A file system with its root in a particular directory of another filesystem
use vstd::prelude::*;

use crate::path::{
    components, components_of, is_absolute, join, join_paths, join_rel, join_relative_components,
    lemma_components_well_formed, SEP,
};

verus! {

/// Similar to a chroot but done purely by path manipulation
///
/// NOTE: This mechanism should only be used for convenience, NOT FOR SECURITY
///
/// Symlinks, hardlinks, remounts, side channels and other file system mechanisms can be exploited
/// to circumvent this mechanism
#[derive(Debug, Clone)]
pub struct BindFS {
    id: String,
    root: Vec<u8>,
}

/// The real path of the virtual absolute path `p` under the real root `root`.
pub open spec fn translated(root: Seq<u8>, p: Seq<u8>) -> Seq<u8> {
    join(root, join_rel(components(p)))
}

/// Law: a translated path starts with the real root: path manipulation
/// alone never leaves it (it is still no security boundary: `..`
/// components and links are passed on to the real filesystem).
pub proof fn law_translated_starts_with_root(root: Seq<u8>, p: Seq<u8>)
    ensures
        translated(root, p).len() >= root.len(),
        translated(root, p).subrange(0, root.len() as int) == root,
{
    let c = components(p);
    lemma_components_well_formed(p);
    let rel = join_rel(c);
    if c.len() > 0 {
        lemma_join_rel_starts_with_first(c);
        assert(c[0].len() > 0 && !c[0].contains(SEP));
        assert(rel[0] == c[0][0]);
        assert(c[0][0] != SEP) by {
            if c[0][0] == SEP {
                assert(c[0].contains(SEP));
            }
        }
        assert(!is_absolute(rel));
    } else {
        assert(rel == Seq::<u8>::empty());
    }
    let t = translated(root, p);
    if root.len() > 0 && root.last() != SEP {
        assert(t == root + seq![SEP] + rel);
    } else {
        assert(t == root + rel);
    }
    assert(t.subrange(0, root.len() as int) =~= root);
}

/// A joined list of components begins with its first component.
proof fn lemma_join_rel_starts_with_first(s: Seq<Seq<u8>>)
    requires
        s.len() > 0,
        s[0].len() > 0,
    ensures
        join_rel(s).len() >= s[0].len(),
        join_rel(s)[0] == s[0][0],
    decreases s.len(),
{
    if s.len() > 1 {
        lemma_join_rel_starts_with_first(s.drop_last());
    }
}

impl BindFS {
    pub closed spec fn spec_id(&self) -> Seq<char> {
        self.id@
    }

    pub closed spec fn spec_root(&self) -> Seq<u8> {
        self.root@
    }

    /// Create a new FileSystem from the given real path
    pub fn new(id: &str, root: &[u8]) -> (r: Self)
        ensures
            r.spec_id() == id@,
            r.spec_root() == root@,
    {
        BindFS { id: id.to_string(), root: vstd::slice::slice_to_vec(root) }
    }

    pub fn id(&self) -> (r: &str)
        ensures
            r@ == self.spec_id(),
    {
        self.id.as_str()
    }

    /// Translates an absolute path within the system, to an absolute path outside it
    /// Note, we should never get a relative path, the filesystem is not aware of cwd
    pub fn translate_path(&self, pth: &[u8]) -> (r: Vec<u8>)
        requires
            is_absolute(pth@),
        ensures
            r@ == translated(self.spec_root(), pth@),
    {
        let comps = components_of(pth);
        let rel = join_relative_components(&comps);
        join_paths(self.root.as_slice(), rel.as_slice())
    }
}

} // verus!
