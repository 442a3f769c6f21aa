//! A writable top layer over one or two read-only lower layers.
use vstd::prelude::*;

use crate::filesystem::{listing_view, LowLevelFS, OpenResult, Stat, VfsDirEntry};
use crate::path::{
    bytes_equal, components, components_of, is_absolute, parent_path, render, render_components, views,
};
use crate::sys::{F_OK, O_APPEND, O_CREAT, O_RDWR, O_TRUNC, O_WRONLY};

verus! {

/// The layer an operation goes to.
#[derive(Debug, Clone, Copy, PartialEq, Eq, Structural)]
pub enum Layer {
    Top,
    Middle,
    Base,
}

/// The layer in which a path is visible: the top one if it has the path,
/// else the middle one if there is one and it has the path, else the base.
pub open spec fn visible(top_has: bool, middle_has: Option<bool>) -> Layer {
    if top_has {
        Layer::Top
    } else if middle_has == Some(true) {
        Layer::Middle
    } else {
        Layer::Base
    }
}

pub fn choose_visible(top_has: bool, middle_has: Option<bool>) -> (r: Layer)
    ensures
        r == visible(top_has, middle_has),
{
    if top_has {
        Layer::Top
    } else if middle_has == Some(true) {
        Layer::Middle
    } else {
        Layer::Base
    }
}

/// Open flags that may change the file: these opens go to the top layer.
pub open spec fn writes(oflag: i32) -> bool {
    oflag & (O_WRONLY | O_RDWR | O_APPEND | O_CREAT | O_TRUNC) != 0
}

pub fn open_writes(oflag: i32) -> (r: bool)
    ensures
        r == writes(oflag),
{
    oflag & (O_WRONLY | O_RDWR | O_APPEND | O_CREAT | O_TRUNC) != 0
}

/// The ancestors of the parent of `p` that the top layer may need, outermost
/// first, without the root: the paths of the first `k` components for
/// `k` from 1 to one less than the number of components.
pub open spec fn parent_chain(p: Seq<u8>) -> Seq<Seq<u8>> {
    let c = components(p);
    if c.len() <= 1 {
        Seq::empty()
    } else {
        Seq::new((c.len() - 1) as nat, |i: int| render(c.subrange(0, i + 1)))
    }
}

pub fn parent_chain_of(p: &[u8]) -> (r: Vec<Vec<u8>>)
    ensures
        views(r@) == parent_chain(p@),
{
    let c = components_of(p);
    let ghost cv = views(c@);
    let mut out: Vec<Vec<u8>> = Vec::new();
    if c.len() <= 1 {
        assert(views(out@) =~= parent_chain(p@));
        return out;
    }
    let mut prefix: Vec<Vec<u8>> = Vec::new();
    let mut k: usize = 0;
    while k + 1 < c.len()
        invariant
            cv == views(c@),
            cv == components(p@),
            c.len() >= 2,
            k + 1 <= c.len(),
            views(prefix@) == cv.subrange(0, k as int),
            out@.len() == k,
            forall|i: int| 0 <= i < k ==> (#[trigger] out@[i])@ == render(cv.subrange(0, i + 1)),
        decreases c.len() - k,
    {
        let ghost before = prefix@;
        prefix.push(c[k].clone());
        assert(views(prefix@) =~= views(before).push(cv[k as int]));
        assert(cv.subrange(0, k + 1) =~= cv.subrange(0, k as int).push(cv[k as int]));
        let rendered = render_components(&prefix);
        out.push(rendered);
        k += 1;
    }
    assert(views(out@) =~= parent_chain(p@));
    out
}

/// Whether some entry of `s` has the name `n`.
pub open spec fn has_entry_named(s: Seq<VfsDirEntry>, n: Seq<u8>) -> bool {
    exists|i: int| 0 <= i < s.len() && (#[trigger] s[i]).name@ == n
}

/// `acc` followed by the entries of `more` whose names are not yet there.
pub open spec fn merge_into(acc: Seq<VfsDirEntry>, more: Seq<VfsDirEntry>) -> Seq<VfsDirEntry>
    decreases more.len(),
{
    if more.len() == 0 {
        acc
    } else {
        let a = merge_into(acc, more.drop_last());
        if has_entry_named(a, more.last().name@) {
            a
        } else {
            a.push(more.last())
        }
    }
}

/// The listings of the layers merged, upper layers first; `None` when no
/// layer could list the directory.
pub open spec fn merge_listings(ls: Seq<Option<Seq<VfsDirEntry>>>) -> Option<Seq<VfsDirEntry>>
    decreases ls.len(),
{
    if ls.len() == 0 {
        None
    } else {
        let prev = merge_listings(ls.drop_last());
        match ls.last() {
            None => prev,
            Some(l) => Some(
                merge_into(
                    match prev {
                        Some(p) => p,
                        None => Seq::empty(),
                    },
                    l,
                ),
            ),
        }
    }
}

/// No two entries have the same name.
pub open spec fn distinct_names(s: Seq<VfsDirEntry>) -> bool {
    forall|i: int, j: int| 0 <= i < j < s.len() ==> (#[trigger] s[i]).name@ != (#[trigger] s[j]).name@
}

/// Law: merging keeps the entries already there, first and unchanged (an
/// upper layer's entry hides a lower one of the same name), lists each name
/// once, and lists exactly the names of either side.
pub proof fn law_merge_into(acc: Seq<VfsDirEntry>, more: Seq<VfsDirEntry>)
    requires
        distinct_names(acc),
    ensures
        merge_into(acc, more).len() >= acc.len(),
        merge_into(acc, more).subrange(0, acc.len() as int) == acc,
        distinct_names(merge_into(acc, more)),
        forall|n: Seq<u8>|
            #[trigger] has_entry_named(merge_into(acc, more), n) <==> has_entry_named(acc, n)
                || has_entry_named(more, n),
    decreases more.len(),
{
    if more.len() > 0 {
        let rest = more.drop_last();
        let e = more.last();
        law_merge_into(acc, rest);
        let a = merge_into(acc, rest);
        assert forall|n: Seq<u8>| has_entry_named(more, n) <==> has_entry_named(rest, n) || e.name@ == n by {
            if has_entry_named(more, n) {
                let i = choose|i: int| 0 <= i < more.len() && (#[trigger] more[i]).name@ == n;
                if i < more.len() - 1 {
                    assert(rest[i] == more[i]);
                }
            }
            if has_entry_named(rest, n) {
                let i = choose|i: int| 0 <= i < rest.len() && (#[trigger] rest[i]).name@ == n;
                assert(more[i] == rest[i]);
            }
            if e.name@ == n {
                assert(more[more.len() - 1] == e);
            }
        }
        if !has_entry_named(a, e.name@) {
            let a2 = a.push(e);
            assert(a2.subrange(0, acc.len() as int) =~= a.subrange(0, acc.len() as int));
            assert forall|n: Seq<u8>| has_entry_named(a2, n) <==> has_entry_named(a, n) || e.name@ == n by {
                if has_entry_named(a2, n) {
                    let i = choose|i: int| 0 <= i < a2.len() && (#[trigger] a2[i]).name@ == n;
                    if i < a.len() {
                        assert(a[i] == a2[i]);
                    }
                }
                if has_entry_named(a, n) {
                    let i = choose|i: int| 0 <= i < a.len() && (#[trigger] a[i]).name@ == n;
                    assert(a2[i] == a[i]);
                }
                if e.name@ == n {
                    assert(a2[a.len() as int] == e);
                }
            }
            assert forall|i: int, j: int| 0 <= i < j < a2.len() implies (#[trigger] a2[i]).name@
                != (#[trigger] a2[j]).name@ by {
                if j == a.len() {
                    assert(a2[i] == a[i]);
                    if a[i].name@ == e.name@ {
                        assert(has_entry_named(a, e.name@));
                    }
                } else {
                    assert(a2[i] == a[i]);
                    assert(a2[j] == a[j]);
                }
            }
        }
    }
}

/// Layer `i` lists a directory, with an entry named `n`.
pub open spec fn layer_lists(ls: Seq<Option<Seq<VfsDirEntry>>>, i: int, n: Seq<u8>) -> bool {
    match ls[i] {
        Some(l) => has_entry_named(l, n),
        None => false,
    }
}

/// Law: a merged listing of the layers lists each name once, and lists a
/// name exactly when some layer that can list the directory lists it.
pub proof fn law_merged_listing(ls: Seq<Option<Seq<VfsDirEntry>>>)
    ensures
        merge_listings(ls) is Some <==> exists|i: int| 0 <= i < ls.len() && (#[trigger] ls[i]) is Some,
        merge_listings(ls) matches Some(r) ==> distinct_names(r) && forall|n: Seq<u8>|
            #[trigger] has_entry_named(r, n) <==> exists|i: int|
                0 <= i < ls.len() && #[trigger] layer_lists(ls, i, n),
    decreases ls.len(),
{
    if ls.len() > 0 {
        let rest = ls.drop_last();
        law_merged_listing(rest);
        let last = ls.len() - 1;
        assert forall|i: int| 0 <= i < rest.len() implies rest[i] == ls[i] by {}
        if let Some(l) = ls[last] {
            let prev = match merge_listings(rest) {
                Some(p) => p,
                None => Seq::<VfsDirEntry>::empty(),
            };
            law_merge_into(prev, l);
            let r = merge_into(prev, l);
            assert forall|n: Seq<u8>| #[trigger] has_entry_named(r, n) <==> exists|i: int|
                0 <= i < ls.len() && #[trigger] layer_lists(ls, i, n) by {
                if has_entry_named(r, n) {
                    if has_entry_named(l, n) {
                        assert(layer_lists(ls, last, n));
                    } else {
                        assert(has_entry_named(prev, n));
                        let i = choose|i: int|
                            0 <= i < rest.len() && #[trigger] layer_lists(rest, i, n);
                        assert(ls[i] == rest[i]);
                        assert(layer_lists(ls, i, n));
                    }
                }
                if exists|i: int| 0 <= i < ls.len() && #[trigger] layer_lists(ls, i, n) {
                    let i = choose|i: int|
                        0 <= i < ls.len() && #[trigger] layer_lists(ls, i, n);
                    if i < last {
                        assert(rest[i] == ls[i]);
                        assert(layer_lists(rest, i, n));
                        assert(rest[i] is Some);
                        assert(merge_listings(rest) is Some);
                        assert(has_entry_named(prev, n));
                    } else {
                        assert(has_entry_named(l, n));
                    }
                }
            }
            assert(ls[last] is Some);
        } else {
            if let Some(r) = merge_listings(rest) {
                assert forall|n: Seq<u8>| #[trigger] has_entry_named(r, n) <==> exists|i: int|
                    0 <= i < ls.len() && #[trigger] layer_lists(ls, i, n) by {
                    if exists|i: int| 0 <= i < ls.len() && #[trigger] layer_lists(ls, i, n) {
                        let i = choose|i: int| 0 <= i < ls.len() && #[trigger] layer_lists(ls, i, n);
                        assert(rest[i] == ls[i]);
                        assert(layer_lists(rest, i, n));
                    }
                    if has_entry_named(r, n) {
                        let i = choose|i: int| 0 <= i < rest.len() && #[trigger] layer_lists(rest, i, n);
                        assert(layer_lists(ls, i, n));
                    }
                }
            }
            if exists|i: int| 0 <= i < ls.len() && (#[trigger] ls[i]) is Some {
                let i = choose|i: int| 0 <= i < ls.len() && (#[trigger] ls[i]) is Some;
                assert(rest[i] == ls[i]);
            }
        }
    }
}

pub open spec fn listing_views(ls: Seq<Option<Vec<VfsDirEntry>>>) -> Seq<Option<Seq<VfsDirEntry>>> {
    Seq::new(
        ls.len(),
        |i: int|
            match ls[i] {
                Some(v) => Some(v@),
                None => None,
            },
    )
}

fn has_name(acc: &Vec<VfsDirEntry>, name: &Vec<u8>) -> (r: bool)
    ensures
        r == has_entry_named(acc@, name@),
{
    let mut i: usize = 0;
    while i < acc.len()
        invariant
            i <= acc@.len(),
            forall|k: int| 0 <= k < i ==> (#[trigger] acc@[k]).name@ != name@,
        decreases acc@.len() - i,
    {
        if bytes_equal(acc[i].name.as_slice(), name.as_slice()) {
            assert(acc@[i as int].name@ == name@);
            return true;
        }
        i += 1;
    }
    false
}

/// Adds to `acc` the entries of `more` whose names it does not have yet.
pub fn merge_entries(acc: &mut Vec<VfsDirEntry>, more: Vec<VfsDirEntry>)
    ensures
        final(acc)@ == merge_into(old(acc)@, more@),
{
    let ghost m = more@;
    let ghost a0 = acc@;
    let mut more = more;
    let mut rest: Vec<VfsDirEntry> = Vec::new();
    // take the entries out in reverse, then walk them in order
    while more.len() > 0
        invariant
            more@ + rest@.reverse() == m,
        decreases more.len(),
    {
        let e = more.pop().unwrap();
        let ghost before_rest = rest@;
        rest.push(e);
        assert(rest@.reverse() =~= seq![e] + before_rest.reverse());
    }
    assert(rest@.reverse() =~= m);
    let mut i: usize = 0;
    let total = rest.len();
    let ghost n = total as nat;
    while rest.len() > 0
        invariant
            rest@.len() + i == n,
            n == m.len(),
            n <= usize::MAX,
            forall|k: int| 0 <= k < rest@.len() ==> rest@[k] == m[n - 1 - k],
            acc@ == merge_into(a0, m.subrange(0, i as int)),
        decreases rest.len(),
    {
        let e = rest.pop().unwrap();
        assert(e == m[i as int]);
        let ghost pre = m.subrange(0, i as int);
        let ghost post = m.subrange(0, i + 1);
        assert(post.drop_last() =~= pre);
        if !has_name(acc, &e.name) {
            acc.push(e);
        }
        i += 1;
    }
    assert(m.subrange(0, m.len() as int) =~= m);
}

/// Merges the listings of the layers, upper layers first: a name listed by
/// an upper layer hides the same name below; `None` when no layer lists.
pub fn merge_dir_listings(listings: Vec<Option<Vec<VfsDirEntry>>>) -> (r: Option<Vec<VfsDirEntry>>)
    ensures
        match r {
            Some(v) => merge_listings(listing_views(listings@)) == Some(v@),
            None => merge_listings(listing_views(listings@)) is None,
        },
{
    let ghost ls = listing_views(listings@);
    let mut entries: Vec<VfsDirEntry> = Vec::new();
    let mut saw_listing = false;
    let mut listings = listings;
    let mut rest: Vec<Option<Vec<VfsDirEntry>>> = Vec::new();
    let ghost orig = listings@;
    while listings.len() > 0
        invariant
            listings@ + rest@.reverse() == orig,
        decreases listings.len(),
    {
        let l = listings.pop().unwrap();
        let ghost before_rest = rest@;
        rest.push(l);
        assert(rest@.reverse() =~= seq![l] + before_rest.reverse());
    }
    assert(rest@.reverse() =~= orig);
    let total = rest.len();
    let ghost n = total as nat;
    let mut i: usize = 0;
    assert(listing_views(orig).subrange(0, 0) =~= Seq::<Option<Seq<VfsDirEntry>>>::empty());
    while rest.len() > 0
        invariant
            rest@.len() + i == n,
            n == orig.len(),
            n <= usize::MAX,
            ls == listing_views(orig),
            forall|k: int| 0 <= k < rest@.len() ==> rest@[k] == orig[n - 1 - k],
            saw_listing ==> merge_listings(ls.subrange(0, i as int)) == Some(entries@),
            !saw_listing ==> merge_listings(ls.subrange(0, i as int)) is None && entries@.len() == 0,
        decreases rest.len(),
    {
        let l = rest.pop().unwrap();
        assert(l == orig[i as int]);
        let ghost pre = ls.subrange(0, i as int);
        let ghost post = ls.subrange(0, i + 1);
        assert(post.drop_last() =~= pre);
        let ghost prev_saw = saw_listing;
        let ghost prev_entries = entries@;
        match l {
            Some(layer_entries) => {
                let ghost le = layer_entries@;
                assert(ls[i as int] == Some(le));
                assert(post.last() == Some(le));
                saw_listing = true;
                merge_entries(&mut entries, layer_entries);
                proof {
                    if !prev_saw {
                        assert(prev_entries =~= Seq::<VfsDirEntry>::empty());
                    }
                    assert(merge_listings(post) == Some(entries@));
                }
            },
            None => {
                assert(ls[i as int] is None);
                assert(post.last() is None);
                assert(merge_listings(post) == merge_listings(pre));
            },
        }
        i += 1;
    }
    assert(ls.subrange(0, n as int) =~= ls);
    if saw_listing {
        Some(entries)
    } else {
        None
    }
}

/// A purely virtual overlay FS
#[derive(Debug)]
pub struct OverlayFS<F> {
    id: String,
    top: F,
    middle: Option<F>,
    base: F,
}

impl<F: LowLevelFS> OverlayFS<F> {
    pub closed spec fn spec_id(&self) -> Seq<char> {
        self.id@
    }

    pub closed spec fn spec_top(&self) -> F {
        self.top
    }

    pub closed spec fn spec_middle(&self) -> Option<F> {
        self.middle
    }

    pub closed spec fn spec_base(&self) -> F {
        self.base
    }

    /// Every layer is well formed.
    pub open spec fn layers_inv(&self) -> bool {
        &&& self.spec_top().fs_inv()
        &&& self.spec_base().fs_inv()
        &&& self.spec_middle() matches Some(m) ==> m.fs_inv()
    }

    /// What the middle layer's `access` of `path` gave, when there is a
    /// middle layer.
    pub open spec fn middle_access(&self, path: Seq<u8>, ma: Option<i32>) -> bool {
        match self.spec_middle() {
            Some(m) => ma is Some && m.spec_access(path, F_OK, ma.unwrap()),
            None => ma is None,
        }
    }

    /// `path` is visible in layer `l`, by what the `access` calls of the
    /// top layer and of the middle one gave.
    pub open spec fn visible_by(&self, path: Seq<u8>, l: Layer) -> bool {
        exists|ta: i32, ma: Option<i32>|
            #![trigger self.spec_top().spec_access(path, F_OK, ta), self.middle_access(path, ma)]
            {
                &&& self.spec_top().spec_access(path, F_OK, ta)
                &&& self.middle_access(path, ma)
                &&& l == visible(
                    ta == 0,
                    match ma {
                        Some(a) => Some(a == 0),
                        None => None,
                    },
                )
            }
    }

    /// Whether a layer below the top has `path` is `b`, by what their
    /// `access` calls gave: the middle layer first, the base when the middle
    /// one does not have it.
    pub open spec fn below_by(&self, path: Seq<u8>, b: bool) -> bool {
        match self.spec_middle() {
            Some(m) => exists|a: i32|
                #![trigger m.spec_access(path, F_OK, a)]
                m.spec_access(path, F_OK, a) && if a == 0 {
                    b
                } else {
                    exists|c: i32|
                        #![trigger self.spec_base().spec_access(path, F_OK, c)]
                        self.spec_base().spec_access(path, F_OK, c) && b == (c == 0)
                },
            None => exists|c: i32|
                #![trigger self.spec_base().spec_access(path, F_OK, c)]
                self.spec_base().spec_access(path, F_OK, c) && b == (c == 0),
        }
    }

    /// `post` differs from `self` only in layer `l`, which went from `a` to
    /// `b` with `step(a, b)`; a middle layer that is absent stands for the
    /// base.
    pub open spec fn only_layer(&self, post: &Self, l: Layer, step: spec_fn(F, F) -> bool) -> bool {
        &&& post.spec_id() == self.spec_id()
        &&& match l {
            Layer::Top => post.spec_middle() == self.spec_middle() && post.spec_base()
                == self.spec_base() && step(self.spec_top(), post.spec_top()),
            Layer::Middle => match self.spec_middle() {
                Some(m) => post.spec_top() == self.spec_top() && post.spec_base() == self.spec_base()
                    && post.spec_middle() is Some && step(m, post.spec_middle().unwrap()),
                None => post.spec_top() == self.spec_top() && post.spec_middle() == self.spec_middle()
                    && step(self.spec_base(), post.spec_base()),
            },
            Layer::Base => post.spec_top() == self.spec_top() && post.spec_middle()
                == self.spec_middle() && step(self.spec_base(), post.spec_base()),
        }
    }

    /// The top layer `mid` after the directories above `path` that a lower
    /// layer has and the top one lacks were created in it, outermost first.
    pub open spec fn top_parents_made(&self, mid: F, path: Seq<u8>) -> bool {
        match parent_path(path) {
            None => mid == self.spec_top(),
            Some(pp) => self.parents_made_under(mid, path, pp),
        }
    }

    /// `top_parents_made` when the parent of `path` is `pp`: nothing is made
    /// when the top layer has `pp` or no lower layer has it.
    pub open spec fn parents_made_under(&self, mid: F, path: Seq<u8>, pp: Seq<u8>) -> bool {
        exists|ta: i32|
            #![trigger self.spec_top().spec_access(pp, F_OK, ta)]
            self.spec_top().spec_access(pp, F_OK, ta) && if ta == 0 {
                mid == self.spec_top()
            } else {
                exists|b: bool|
                    #![trigger self.below_by(pp, b)]
                    self.below_by(pp, b) && if !b {
                        mid == self.spec_top()
                    } else {
                        dirs_made(self.spec_top(), mid, parent_chain(path))
                    }
            }
    }

    /// A write goes to the top layer after the parent directories are made.
    pub open spec fn top_write(&self, post: &Self, path: Seq<u8>, step: spec_fn(F, F) -> bool) -> bool {
        &&& post.spec_id() == self.spec_id()
        &&& post.spec_middle() == self.spec_middle()
        &&& post.spec_base() == self.spec_base()
        &&& exists|mid: F|
            #![trigger self.top_parents_made(mid, path)]
            self.top_parents_made(mid, path) && mid.fs_inv() && step(mid, post.spec_top())
    }

    /// What the middle layer, when there is one, lists for `path`.
    pub open spec fn middle_read_dir(&self, path: Seq<u8>, lm: Option<Seq<VfsDirEntry>>) -> bool {
        match self.spec_middle() {
            Some(m) => m.spec_read_dir(path, lm),
            None => lm is None,
        }
    }

    /// The listings of the layers, top first.
    pub open spec fn layer_listings(
        &self,
        lt: Option<Seq<VfsDirEntry>>,
        lm: Option<Seq<VfsDirEntry>>,
        lb: Option<Seq<VfsDirEntry>>,
    ) -> Seq<Option<Seq<VfsDirEntry>>> {
        if self.spec_middle() is Some {
            seq![lt, lm, lb]
        } else {
            seq![lt, lb]
        }
    }

    pub fn new(id: &str, top_rw_layer: F, base: F) -> (r: Self)
        ensures
            r.spec_id() == id@,
            r.spec_top() == top_rw_layer,
            r.spec_middle() is None,
            r.spec_base() == base,
    {
        Self { id: id.to_string(), top: top_rw_layer, middle: None, base }
    }

    pub fn with_extra_base(self, layer: F) -> (r: Self)
        ensures
            r.spec_id() == self.spec_id(),
            r.spec_top() == self.spec_top(),
            r.spec_middle() == Some(layer),
            r.spec_base() == self.spec_base(),
    {
        let mut s = self;
        s.middle = Some(layer);
        s
    }

    pub fn top_layer(&self) -> (r: &F)
        ensures
            *r == self.spec_top(),
    {
        &self.top
    }

    pub fn base_layer(&self) -> (r: &F)
        ensures
            *r == self.spec_base(),
    {
        &self.base
    }

    /// The layer in which `path` is visible.
    fn visible_layer(&self, path: &[u8]) -> (r: Layer)
        requires
            self.layers_inv(),
            is_absolute(path@),
        ensures
            self.visible_by(path@, r),
    {
        let ta = self.top.access(path, F_OK);
        let ghost mut ma: Option<i32> = None;
        let middle_has = match &self.middle {
            Some(m) => {
                let a = m.access(path, F_OK);
                proof {
                    ma = Some(a);
                }
                Some(a == 0)
            },
            None => None,
        };
        let r = choose_visible(ta == 0, middle_has);
        assert(self.middle_access(path@, ma));
        assert(self.spec_top().spec_access(path@, F_OK, ta));
        r
    }

    /// Whether a layer below the top has `path`.
    fn path_exists_below_top(&self, path: &[u8]) -> (r: bool)
        requires
            self.layers_inv(),
            is_absolute(path@),
        ensures
            self.below_by(path@, r),
    {
        match &self.middle {
            Some(fs) => {
                let a = fs.access(path, F_OK);
                if a == 0 {
                    return true;
                }
                let c = self.base.access(path, F_OK);
                assert(self.spec_base().spec_access(path@, F_OK, c));
                c == 0
            },
            None => {
                let c = self.base.access(path, F_OK);
                assert(self.spec_base().spec_access(path@, F_OK, c));
                c == 0
            },
        }
    }

    /// Creates in the top layer the directories above `path` that a lower
    /// layer has and the top one lacks. Only the top layer changes.
    fn ensure_top_parent_dirs(&mut self, path: &[u8])
        requires
            old(self).layers_inv(),
            is_absolute(path@),
        ensures
            final(self).layers_inv(),
            final(self).spec_id() == old(self).spec_id(),
            final(self).spec_middle() == old(self).spec_middle(),
            final(self).spec_base() == old(self).spec_base(),
            old(self).top_parents_made(final(self).spec_top(), path@),
    {
        let parent_dir = match crate::path::parent_of(path) {
            Some(p) => p,
            None => return,
        };
        assert(is_absolute(parent_dir@)) by {
            assert(parent_dir@ == render(components(path@).drop_last()));
        }
        assert(parent_path(path@) == Some(parent_dir@));
        let ta = self.top.access(parent_dir.as_slice(), F_OK);
        assert(self.spec_top().spec_access(parent_dir@, F_OK, ta));
        if ta == 0 {
            assert(self.parents_made_under(self.spec_top(), path@, parent_dir@));
            return;
        }
        let below = self.path_exists_below_top(parent_dir.as_slice());
        assert(self.below_by(parent_dir@, below));
        if !below {
            assert(self.parents_made_under(self.spec_top(), path@, parent_dir@));
            return;
        }
        let chain = parent_chain_of(path);
        let ghost top0 = self.top;
        let ghost pc = parent_chain(path@);
        let ghost mut tops: Seq<F> = seq![top0];
        let mut i: usize = 0;
        assert(made_along(tops, pc.take(0)));
        while i < chain.len()
            invariant
                self.layers_inv(),
                self.spec_id() == old(self).spec_id(),
                self.spec_middle() == old(self).spec_middle(),
                self.spec_base() == old(self).spec_base(),
                top0 == old(self).spec_top(),
                pc == parent_chain(path@),
                views(chain@) == pc,
                i <= chain.len(),
                made_along(tops, pc.take(i as int)),
                tops[0] == top0,
                tops.last() == self.spec_top(),
            decreases chain.len() - i,
        {
            assert(is_absolute(chain@[i as int]@)) by {
                assert(views(chain@)[i as int] == chain@[i as int]@);
                let c = components(path@);
                assert(views(chain@).len() == chain@.len());
                assert(parent_chain(path@).len() > 0);
                assert(c.len() > 1);
                assert(parent_chain(path@)[i as int] == render(c.subrange(0, i + 1)));
                assert(render(c.subrange(0, i + 1))[0] == crate::path::SEP);
            }
            assert(views(chain@)[i as int] == chain@[i as int]@);
            let ghost before = self.top;
            let p = chain[i].as_slice();
            let a = self.top.access(p, F_OK);
            assert(before.spec_access(pc[i as int], F_OK, a));
            if a != 0 {
                let r = self.top.mkdir(p, 0o755);
                assert(before.spec_mkdir(&self.top, pc[i as int], 0o755, r));
                assert(dir_step(before, self.top, pc[i as int]));
            } else {
                assert(dir_step(before, self.top, pc[i as int]));
            }
            let ghost tops2 = tops.push(self.top);
            assert(made_along(tops2, pc.take(i + 1))) by {
                let c2 = pc.take(i + 1);
                assert forall|k: int| 0 <= k < c2.len() implies dir_step(
                    tops2[k],
                    tops2[k + 1],
                    #[trigger] c2[k],
                ) by {
                    if k < i {
                        assert(pc.take(i as int)[k] == c2[k]);
                        assert(tops2[k] == tops[k]);
                        assert(tops2[k + 1] == tops[k + 1]);
                    } else {
                        assert(tops2[k] == before);
                    }
                }
            }
            proof {
                tops = tops2;
            }
            i += 1;
        }
        assert(pc.take(i as int) =~= pc);
    }
}

/// One step of making parent directories: `path` is made in `pre` when
/// its `access` says it is missing there.
pub open spec fn dir_step<F: LowLevelFS>(pre: F, post: F, path: Seq<u8>) -> bool {
    exists|a: i32|
        #![trigger pre.spec_access(path, F_OK, a)]
        pre.spec_access(path, F_OK, a) && if a != 0 {
            exists|r: i32| #[trigger] pre.spec_mkdir(&post, path, 0o755, r)
        } else {
            post == pre
        }
}

/// `tops` are the states of a layer as the paths of `chain` were made in
/// turn, as needed.
pub open spec fn made_along<F: LowLevelFS>(tops: Seq<F>, chain: Seq<Seq<u8>>) -> bool {
    &&& tops.len() == chain.len() + 1
    &&& forall|k: int| #![trigger chain[k]] 0 <= k < chain.len() ==> dir_step(tops[k], tops[k + 1], chain[k])
}

/// The paths of `chain` were made in turn, as needed, from `pre` to `post`.
pub open spec fn dirs_made<F: LowLevelFS>(pre: F, post: F, chain: Seq<Seq<u8>>) -> bool {
    exists|tops: Seq<F>|
        #![trigger made_along(tops, chain)]
        made_along(tops, chain) && tops[0] == pre && tops.last() == post
}

/// Layer `l` of `o`, for an operation with the relation `rel`: the middle
/// layer stands for the base when there is none.
pub open spec fn on_layer<F: LowLevelFS>(o: &OverlayFS<F>, l: Layer, rel: spec_fn(F) -> bool) -> bool {
    match l {
        Layer::Top => rel(o.spec_top()),
        Layer::Middle => match o.spec_middle() {
            Some(m) => rel(m),
            None => rel(o.spec_base()),
        },
        Layer::Base => rel(o.spec_base()),
    }
}

impl<F: LowLevelFS> LowLevelFS for OverlayFS<F> {
    open spec fn fs_inv(&self) -> bool {
        self.layers_inv()
    }

    open spec fn spec_access(&self, path: Seq<u8>, mode: i32, r: i32) -> bool {
        exists|l: Layer|
            #![trigger self.visible_by(path, l)]
            self.visible_by(path, l) && on_layer(self, l, |f: F| f.spec_access(path, mode, r))
    }

    open spec fn spec_open(&self, post: &Self, path: Seq<u8>, flag: i32, mode: u32, r: i32) -> bool {
        if writes(flag) {
            self.top_write(post, path, |a: F, b: F| a.spec_open(&b, path, flag, mode, r))
        } else {
            exists|l: Layer|
                #![trigger self.visible_by(path, l)]
                self.visible_by(path, l) && self.only_layer(
                    post,
                    l,
                    |a: F, b: F| a.spec_open(&b, path, flag, mode, r),
                )
        }
    }

    open spec fn spec_openat(
        &self,
        post: &Self,
        dirfd: i32,
        path: Seq<u8>,
        flag: i32,
        mode: u32,
        r: i32,
    ) -> bool {
        self.spec_open(post, path, flag, mode, r)
    }

    open spec fn spec_mkdir(&self, post: &Self, path: Seq<u8>, mode: u32, r: i32) -> bool {
        self.top_write(post, path, |a: F, b: F| a.spec_mkdir(&b, path, mode, r))
    }

    open spec fn spec_unlink(&self, post: &Self, path: Seq<u8>, r: i32) -> bool {
        exists|ta: i32|
            #![trigger self.spec_top().spec_access(path, F_OK, ta)]
            self.spec_top().spec_access(path, F_OK, ta) && if ta == 0 {
                self.only_layer(post, Layer::Top, |a: F, b: F| a.spec_unlink(&b, path, r))
            } else {
                exists|l: Layer|
                    #![trigger self.visible_by(path, l)]
                    self.visible_by(path, l) && self.only_layer(
                        post,
                        l,
                        |a: F, b: F| a.spec_unlink(&b, path, r),
                    )
            }
    }

    open spec fn spec_rmdir(&self, post: &Self, path: Seq<u8>, r: i32) -> bool {
        exists|ta: i32|
            #![trigger self.spec_top().spec_access(path, F_OK, ta)]
            self.spec_top().spec_access(path, F_OK, ta) && if ta == 0 {
                self.only_layer(post, Layer::Top, |a: F, b: F| a.spec_rmdir(&b, path, r))
            } else {
                exists|l: Layer|
                    #![trigger self.visible_by(path, l)]
                    self.visible_by(path, l) && self.only_layer(
                        post,
                        l,
                        |a: F, b: F| a.spec_rmdir(&b, path, r),
                    )
            }
    }

    open spec fn spec_rename(&self, post: &Self, old_path: Seq<u8>, new_path: Seq<u8>, r: i32) -> bool {
        exists|ta: i32|
            #![trigger self.spec_top().spec_access(old_path, F_OK, ta)]
            self.spec_top().spec_access(old_path, F_OK, ta) && if ta == 0 {
                self.top_write(
                    post,
                    new_path,
                    |a: F, b: F| a.spec_rename(&b, old_path, new_path, r),
                )
            } else {
                exists|l: Layer|
                    #![trigger self.visible_by(old_path, l)]
                    self.visible_by(old_path, l) && self.only_layer(
                        post,
                        l,
                        |a: F, b: F| a.spec_rename(&b, old_path, new_path, r),
                    )
            }
    }

    open spec fn spec_chmod(&self, post: &Self, path: Seq<u8>, mode: u32, r: i32) -> bool {
        exists|l: Layer|
            #![trigger self.visible_by(path, l)]
            self.visible_by(path, l) && self.only_layer(
                post,
                l,
                |a: F, b: F| a.spec_chmod(&b, path, mode, r),
            )
    }

    open spec fn spec_stat(&self, path: Seq<u8>, before: Stat, r: i32, after: Stat) -> bool {
        exists|l: Layer|
            #![trigger self.visible_by(path, l)]
            self.visible_by(path, l) && on_layer(
                self,
                l,
                |f: F| f.spec_stat(path, before, r, after),
            )
    }

    open spec fn spec_open_with_handle(
        &self,
        post: &Self,
        path: Seq<u8>,
        flag: i32,
        mode: u32,
        r: OpenResult,
    ) -> bool {
        if writes(flag) {
            self.top_write(post, path, |a: F, b: F| a.spec_open_with_handle(&b, path, flag, mode, r))
        } else {
            exists|l: Layer|
                #![trigger self.visible_by(path, l)]
                self.visible_by(path, l) && self.only_layer(
                    post,
                    l,
                    |a: F, b: F| a.spec_open_with_handle(&b, path, flag, mode, r),
                )
        }
    }

    open spec fn spec_read_dir(&self, path: Seq<u8>, r: Option<Seq<VfsDirEntry>>) -> bool {
        exists|lt: Option<Seq<VfsDirEntry>>, lm: Option<Seq<VfsDirEntry>>, lb: Option<Seq<VfsDirEntry>>|
            {
                &&& #[trigger] self.spec_top().spec_read_dir(path, lt)
                &&& #[trigger] self.middle_read_dir(path, lm)
                &&& #[trigger] self.spec_base().spec_read_dir(path, lb)
                &&& r == merge_listings(self.layer_listings(lt, lm, lb))
            }
    }

    fn id(&self) -> (r: &str)
        ensures
            r@ == self.spec_id(),
    {
        self.id.as_str()
    }

    fn access(&self, path: &[u8], mode: i32) -> (r: i32) {
        let l = self.visible_layer(path);
        let r = match l {
            Layer::Top => self.top.access(path, mode),
            Layer::Middle => match &self.middle {
                Some(m) => m.access(path, mode),
                None => self.base.access(path, mode),
            },
            Layer::Base => self.base.access(path, mode),
        };
        assert(on_layer(self, l, |f: F| f.spec_access(path@, mode, r)));
        r
    }

    fn open(&mut self, path: &[u8], oflag: i32, mode: u32) -> (r: i32) {
        if open_writes(oflag) {
            self.ensure_top_parent_dirs(path);
            let ghost mid = self.top;
            let r = self.top.open(path, oflag, mode);
            assert(old(self).top_parents_made(mid, path@));
            return r;
        }
        let l = self.visible_layer(path);
        let r = match l {
            Layer::Top => self.top.open(path, oflag, mode),
            Layer::Middle => match &mut self.middle {
                Some(m) => m.open(path, oflag, mode),
                None => self.base.open(path, oflag, mode),
            },
            Layer::Base => self.base.open(path, oflag, mode),
        };
        assert(old(self).visible_by(path@, l));
        r
    }

    fn open_with_handle(&mut self, path: &[u8], oflag: i32, mode: u32) -> (r: OpenResult) {
        if open_writes(oflag) {
            self.ensure_top_parent_dirs(path);
            let ghost mid = self.top;
            let r = self.top.open_with_handle(path, oflag, mode);
            assert(old(self).top_parents_made(mid, path@));
            return r;
        }
        let l = self.visible_layer(path);
        let r = match l {
            Layer::Top => self.top.open_with_handle(path, oflag, mode),
            Layer::Middle => match &mut self.middle {
                Some(m) => m.open_with_handle(path, oflag, mode),
                None => self.base.open_with_handle(path, oflag, mode),
            },
            Layer::Base => self.base.open_with_handle(path, oflag, mode),
        };
        assert(old(self).visible_by(path@, l));
        r
    }

    fn openat(&mut self, _dirfd: i32, path: &[u8], flag: i32, mode: u32) -> (r: i32) {
        self.open(path, flag, mode)
    }

    fn mkdir(&mut self, path: &[u8], mode: u32) -> (r: i32) {
        // Write operation targets only the top layer
        // If existed in lower layer it shadows it
        self.ensure_top_parent_dirs(path);
        let ghost mid = self.top;
        let r = self.top.mkdir(path, mode);
        assert(old(self).top_parents_made(mid, path@));
        r
    }

    fn unlink(&mut self, path: &[u8]) -> (r: i32) {
        let ta = self.top.access(path, F_OK);
        assert(old(self).spec_top().spec_access(path@, F_OK, ta));
        if ta == 0 {
            return self.top.unlink(path);
        }
        let l = self.visible_layer(path);
        let r = match l {
            Layer::Top => self.top.unlink(path),
            Layer::Middle => match &mut self.middle {
                Some(m) => m.unlink(path),
                None => self.base.unlink(path),
            },
            Layer::Base => self.base.unlink(path),
        };
        assert(old(self).visible_by(path@, l));
        r
    }

    fn rmdir(&mut self, path: &[u8]) -> (r: i32) {
        let ta = self.top.access(path, F_OK);
        assert(old(self).spec_top().spec_access(path@, F_OK, ta));
        if ta == 0 {
            return self.top.rmdir(path);
        }
        let l = self.visible_layer(path);
        let r = match l {
            Layer::Top => self.top.rmdir(path),
            Layer::Middle => match &mut self.middle {
                Some(m) => m.rmdir(path),
                None => self.base.rmdir(path),
            },
            Layer::Base => self.base.rmdir(path),
        };
        assert(old(self).visible_by(path@, l));
        r
    }

    fn rename(&mut self, old_path: &[u8], new_path: &[u8]) -> (r: i32) {
        let ta = self.top.access(old_path, F_OK);
        assert(old(self).spec_top().spec_access(old_path@, F_OK, ta));
        if ta == 0 {
            self.ensure_top_parent_dirs(new_path);
            let ghost mid = self.top;
            let r = self.top.rename(old_path, new_path);
            assert(old(self).top_parents_made(mid, new_path@));
            return r;
        }
        let l = self.visible_layer(old_path);
        let r = match l {
            Layer::Top => self.top.rename(old_path, new_path),
            Layer::Middle => match &mut self.middle {
                Some(m) => m.rename(old_path, new_path),
                None => self.base.rename(old_path, new_path),
            },
            Layer::Base => self.base.rename(old_path, new_path),
        };
        assert(old(self).visible_by(old_path@, l));
        r
    }

    fn chmod(&mut self, path: &[u8], mode: u32) -> (r: i32) {
        let l = self.visible_layer(path);
        let r = match l {
            Layer::Top => self.top.chmod(path, mode),
            Layer::Middle => match &mut self.middle {
                Some(m) => m.chmod(path, mode),
                None => self.base.chmod(path, mode),
            },
            Layer::Base => self.base.chmod(path, mode),
        };
        assert(old(self).visible_by(path@, l));
        r
    }

    fn stat(&self, path: &[u8], statbuf: &mut Stat) -> (r: i32) {
        let l = self.visible_layer(path);
        let r = match l {
            Layer::Top => self.top.stat(path, statbuf),
            Layer::Middle => match &self.middle {
                Some(m) => m.stat(path, statbuf),
                None => self.base.stat(path, statbuf),
            },
            Layer::Base => self.base.stat(path, statbuf),
        };
        assert(on_layer(self, l, |f: F| f.spec_stat(path@, *old(statbuf), r, *final(statbuf))));
        r
    }

    fn read_dir(&self, path: &[u8]) -> (r: Option<Vec<VfsDirEntry>>) {
        let mut listings: Vec<Option<Vec<VfsDirEntry>>> = Vec::new();
        let top = self.top.read_dir(path);
        let ghost lt = listing_view(top);
        listings.push(top);
        let ghost mut lm: Option<Seq<VfsDirEntry>> = None;
        match &self.middle {
            Some(m) => {
                let e = m.read_dir(path);
                proof {
                    lm = listing_view(e);
                }
                listings.push(e);
            },
            None => {},
        }
        let base = self.base.read_dir(path);
        let ghost lb = listing_view(base);
        listings.push(base);
        proof {
            let ls = listing_views(listings@);
            assert(ls =~= self.layer_listings(lt, lm, lb));
            assert(self.middle_read_dir(path@, lm));
        }
        let r = merge_dir_listings(listings);
        assert(listing_view(r) == merge_listings(listing_views(listings@)));
        r
    }

    // An overlay does not record which layer gave an opened object, so it
    // keeps none of its own: descriptor operations on it go by path.
    open spec fn spec_stat_opened(&self, h: u64, before: Stat, r: Option<i32>, after: Stat) -> bool {
        r is None && after == before
    }

    open spec fn spec_read_dir_opened(&self, h: u64, r: Option<Option<Seq<VfsDirEntry>>>) -> bool {
        r is None
    }

    open spec fn spec_open_child(
        &self,
        post: &Self,
        h: u64,
        path: Seq<u8>,
        flag: i32,
        mode: u32,
        r: Option<OpenResult>,
    ) -> bool {
        r is None && *post == *self
    }

    open spec fn spec_mkdir_child(&self, post: &Self, h: u64, path: Seq<u8>, mode: u32, r: Option<i32>) -> bool {
        r is None && *post == *self
    }

    open spec fn spec_release_opened(&self, post: &Self, h: u64) -> bool {
        *post == *self
    }

    fn stat_opened(&self, h: u64, statbuf: &mut Stat) -> (r: Option<i32>) {
        None
    }

    fn read_dir_opened(&self, h: u64) -> (r: Option<Option<Vec<VfsDirEntry>>>) {
        None
    }

    fn open_child(&mut self, h: u64, path: &[u8], flag: i32, mode: u32) -> (r: Option<OpenResult>) {
        None
    }

    fn mkdir_child(&mut self, h: u64, path: &[u8], mode: u32) -> (r: Option<i32>) {
        None
    }

    fn release_opened(&mut self, h: u64) {
    }
}

} // verus!
