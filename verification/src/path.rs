//! Byte paths and the component model that every backend shares.
//!
//! A path is a sequence of bytes, as on Unix. Its components follow the rules
//! of `std::path::Path::components`: separators are `/`, empty segments and
//! `.` segments are dropped, except that a relative path that starts with a
//! `.` segment keeps it as its first component. `..` is kept as a component.
//! Whether a path is absolute (starts with `/`) is kept apart from the list.
use vstd::prelude::*;

verus! {

/// The path separator.
pub const SEP: u8 = 47;

/// The byte `.`.
pub const DOT: u8 = 46;

/// Views of a vector of byte vectors.
pub open spec fn views(v: Seq<Vec<u8>>) -> Seq<Seq<u8>> {
    Seq::new(v.len(), |i: int| v[i]@)
}

pub open spec fn is_absolute(p: Seq<u8>) -> bool {
    p.len() > 0 && p[0] == SEP
}

pub open spec fn dot() -> Seq<u8> {
    seq![DOT]
}

pub open spec fn dotdot() -> Seq<u8> {
    seq![DOT, DOT]
}

/// A component that names a child (neither `.` nor `..`).
pub open spec fn is_normal(c: Seq<u8>) -> bool {
    c != dot() && c != dotdot()
}

/// Whether a finished segment becomes a component; `first` tells whether no
/// separator came before it.
pub open spec fn keeps_segment(seg: Seq<u8>, first: bool) -> bool {
    seg.len() > 0 && (seg != dot() || first)
}

/// The state of a left-to-right scan over the first `n` bytes of `p`:
/// the components found so far, the current segment, and whether no
/// separator has been seen yet.
pub open spec fn scan(p: Seq<u8>, n: nat) -> (Seq<Seq<u8>>, Seq<u8>, bool)
    decreases n,
{
    if n == 0 {
        (Seq::empty(), Seq::empty(), true)
    } else {
        let prev = scan(p, (n - 1) as nat);
        if p[n - 1] == SEP {
            (
                if keeps_segment(prev.1, prev.2) {
                    prev.0.push(prev.1)
                } else {
                    prev.0
                },
                Seq::empty(),
                false,
            )
        } else {
            (prev.0, prev.1.push(p[n - 1]), prev.2)
        }
    }
}

/// The components of a path (the root of an absolute path is not listed).
pub open spec fn components(p: Seq<u8>) -> Seq<Seq<u8>> {
    let s = scan(p, p.len());
    if keeps_segment(s.1, s.2) {
        s.0.push(s.1)
    } else {
        s.0
    }
}

/// Path equality as `std::path::Path` defines it: same root, same components.
pub open spec fn path_eq(a: Seq<u8>, b: Seq<u8>) -> bool {
    is_absolute(a) == is_absolute(b) && components(a) == components(b)
}

/// `Path::starts_with`: the components of `base` are a prefix of those of `p`.
pub open spec fn starts_with(p: Seq<u8>, base: Seq<u8>) -> bool {
    is_absolute(p) == is_absolute(base) && components(base).len() <= components(p).len()
        && components(p).subrange(0, components(base).len() as int) == components(base)
}

/// The root path `/`.
pub open spec fn is_root(p: Seq<u8>) -> bool {
    is_absolute(p) && components(p).len() == 0
}

/// Components joined by separators, without a leading one.
pub open spec fn join_rel(s: Seq<Seq<u8>>) -> Seq<u8>
    decreases s.len(),
{
    if s.len() == 0 {
        Seq::empty()
    } else if s.len() == 1 {
        s[0]
    } else {
        join_rel(s.drop_last()) + seq![SEP] + s.last()
    }
}

/// The absolute path whose components are `s`.
pub open spec fn render(s: Seq<Seq<u8>>) -> Seq<u8> {
    seq![SEP] + join_rel(s)
}

/// `PathBuf::push` / `Path::join`: an absolute `b` replaces `a`; otherwise a
/// separator is added unless `a` is empty or already ends with one.
pub open spec fn join(a: Seq<u8>, b: Seq<u8>) -> Seq<u8> {
    if is_absolute(b) {
        b
    } else if a.len() > 0 && a.last() != SEP {
        a + seq![SEP] + b
    } else {
        a + b
    }
}

/// Components after `.` and `..` are applied: `.` is dropped and `..`
/// removes the previous component (nothing above the root).
pub open spec fn fold_dots(s: Seq<Seq<u8>>) -> Seq<Seq<u8>>
    decreases s.len(),
{
    if s.len() == 0 {
        Seq::empty()
    } else {
        let r = fold_dots(s.drop_last());
        let c = s.last();
        if c == dot() {
            r
        } else if c == dotdot() {
            if r.len() > 0 {
                r.drop_last()
            } else {
                r
            }
        } else {
            r.push(c)
        }
    }
}

/// The normal form of an absolute path.
pub open spec fn normalize(p: Seq<u8>) -> Seq<u8> {
    render(fold_dots(components(p)))
}

/// No component is empty or holds a separator.
pub open spec fn well_formed_components(s: Seq<Seq<u8>>) -> bool {
    forall|i: int| 0 <= i < s.len() ==> s[i].len() > 0 && !s[i].contains(SEP)
}

proof fn lemma_scan_well_formed(p: Seq<u8>, n: nat)
    requires
        n <= p.len(),
    ensures
        well_formed_components(scan(p, n).0),
        !scan(p, n).1.contains(SEP),
    decreases n,
{
    if n > 0 {
        lemma_scan_well_formed(p, (n - 1) as nat);
        let prev = scan(p, (n - 1) as nat);
        if p[n - 1] != SEP {
            let q = prev.1.push(p[n - 1]);
            assert forall|i: int| 0 <= i < q.len() implies #[trigger] q[i] != SEP by {
                if i < prev.1.len() {
                    assert(q[i] == prev.1[i]);
                    if prev.1[i] == SEP {
                        assert(prev.1.contains(SEP));
                    }
                }
            }
        } else {
            assert(!Seq::<u8>::empty().contains(SEP));
        }
    }
}

/// Law: every component of a path is non-empty and holds no separator.
pub proof fn lemma_components_well_formed(p: Seq<u8>)
    ensures
        well_formed_components(components(p)),
{
    lemma_scan_well_formed(p, p.len());
}

pub fn is_absolute_path(p: &[u8]) -> (r: bool)
    ensures
        r == is_absolute(p@),
{
    p.len() > 0 && p[0] == SEP
}

fn keeps(seg: &Vec<u8>, first: bool) -> (r: bool)
    ensures
        r == keeps_segment(seg@, first),
{
    if seg.len() == 0 {
        false
    } else if seg.len() == 1 && seg[0] == DOT {
        proof {
            assert(seg@ =~= dot());
        }
        first
    } else {
        assert(seg@ != dot()) by {
            if seg.len() == 1 {
                assert(seg@[0] != dot()[0]);
            }
        }
        true
    }
}

pub fn is_normal_component(c: &Vec<u8>) -> (r: bool)
    ensures
        r == is_normal(c@),
{
    if c.len() == 1 && c[0] == DOT {
        assert(c@ =~= dot());
        false
    } else if c.len() == 2 && c[0] == DOT && c[1] == DOT {
        assert(c@ =~= dotdot());
        false
    } else {
        assert(c@ != dot()) by {
            if c@.len() == 1 {
                assert(c@[0] != dot()[0]);
            }
        }
        assert(c@ != dotdot()) by {
            if c@.len() == 2 {
                assert(c@[0] != dotdot()[0] || c@[1] != dotdot()[1]);
            }
        }
        true
    }
}

pub fn is_dot_component(c: &Vec<u8>) -> (r: bool)
    ensures
        r == (c@ == dot()),
{
    if c.len() == 1 && c[0] == DOT {
        assert(c@ =~= dot());
        true
    } else {
        assert(c@ != dot()) by {
            if c@.len() == 1 {
                assert(c@[0] != dot()[0]);
            }
        }
        false
    }
}

pub fn is_dotdot_component(c: &Vec<u8>) -> (r: bool)
    ensures
        r == (c@ == dotdot()),
{
    if c.len() == 2 && c[0] == DOT && c[1] == DOT {
        assert(c@ =~= dotdot());
        true
    } else {
        assert(c@ != dotdot()) by {
            if c@.len() == 2 {
                assert(c@[0] != dotdot()[0] || c@[1] != dotdot()[1]);
            }
        }
        false
    }
}

/// The components of `p`.
pub fn components_of(p: &[u8]) -> (c: Vec<Vec<u8>>)
    ensures
        views(c@) == components(p@),
{
    let mut acc: Vec<Vec<u8>> = Vec::new();
    let mut cur: Vec<u8> = Vec::new();
    let mut first = true;
    let mut i: usize = 0;
    while i < p.len()
        invariant
            i <= p.len(),
            views(acc@) == scan(p@, i as nat).0,
            cur@ == scan(p@, i as nat).1,
            first == scan(p@, i as nat).2,
        decreases p.len() - i,
    {
        if p[i] == SEP {
            if keeps(&cur, first) {
                let ghost before = acc@;
                acc.push(cur);
                assert(views(acc@) =~= views(before).push(scan(p@, i as nat).1));
            }
            cur = Vec::new();
            first = false;
        } else {
            cur.push(p[i]);
        }
        i += 1;
    }
    if keeps(&cur, first) {
        let ghost before = acc@;
        acc.push(cur);
        assert(views(acc@) =~= views(before).push(scan(p@, i as nat).1));
    }
    assert(p@.len() == i);
    acc
}

/// The absolute path whose components are `s`.
pub fn render_components(s: &Vec<Vec<u8>>) -> (r: Vec<u8>)
    ensures
        r@ == render(views(s@)),
{
    let mut out: Vec<u8> = Vec::new();
    out.push(SEP);
    let mut i: usize = 0;
    while i < s.len()
        invariant
            i <= s.len(),
            out@ == render(views(s@).subrange(0, i as int)),
        decreases s.len() - i,
    {
        let ghost before = out@;
        let ghost pre = views(s@).subrange(0, i as int);
        let ghost post = views(s@).subrange(0, i + 1);
        assert(post.drop_last() =~= pre);
        if i > 0 {
            out.push(SEP);
        }
        let mut j: usize = 0;
        let ghost mid = out@;
        while j < s[i].len()
            invariant
                j <= s@[i as int]@.len(),
                i < s.len(),
                out@ == mid + s@[i as int]@.subrange(0, j as int),
            decreases s@[i as int]@.len() - j,
        {
            out.push(s[i][j]);
            assert(s@[i as int]@.subrange(0, j + 1) =~= s@[i as int]@.subrange(0, j as int).push(
                s@[i as int]@[j as int],
            ));
            assert(out@ =~= mid + s@[i as int]@.subrange(0, j + 1));
            j += 1;
        }
        assert(s@[i as int]@.subrange(0, j as int) =~= s@[i as int]@);
        assert(post.last() == s@[i as int]@);
        if i == 0 {
            assert(post.len() == 1);
            assert(join_rel(post) == post[0]);
            assert(out@ =~= render(post));
        } else {
            assert(join_rel(post) == join_rel(pre) + seq![SEP] + post.last());
            assert(out@ =~= render(post));
        }
        i += 1;
    }
    assert(views(s@).subrange(0, s.len() as int) =~= views(s@));
    out
}

/// `Path::join`.
pub fn join_paths(a: &[u8], b: &[u8]) -> (r: Vec<u8>)
    ensures
        r@ == join(a@, b@),
{
    let mut out: Vec<u8> = Vec::new();
    if is_absolute_path(b) {
        append_bytes(&mut out, b);
        assert(out@ =~= b@);
        return out;
    }
    append_bytes(&mut out, a);
    if a.len() > 0 && a[a.len() - 1] != SEP {
        out.push(SEP);
    }
    append_bytes(&mut out, b);
    proof {
        if a@.len() > 0 && a@.last() != SEP {
            assert(out@ =~= a@ + seq![SEP] + b@);
        } else {
            assert(out@ =~= a@ + b@);
        }
    }
    out
}

/// Appends the bytes of `b` to `out`.
pub fn append_bytes(out: &mut Vec<u8>, b: &[u8])
    ensures
        final(out)@ == old(out)@ + b@,
{
    let mut i: usize = 0;
    while i < b.len()
        invariant
            i <= b.len(),
            out@ == old(out)@ + b@.subrange(0, i as int),
        decreases b.len() - i,
    {
        out.push(b[i]);
        assert(b@.subrange(0, i + 1) =~= b@.subrange(0, i as int).push(b@[i as int]));
        assert(out@ =~= old(out)@ + b@.subrange(0, i + 1));
        i += 1;
    }
    assert(b@.subrange(0, i as int) =~= b@);
}

/// Applies `.` and `..` to a list of components.
pub fn fold_dot_components(c: Vec<Vec<u8>>) -> (r: Vec<Vec<u8>>)
    ensures
        views(r@) == fold_dots(views(c@)),
{
    let mut out: Vec<Vec<u8>> = Vec::new();
    let mut i: usize = 0;
    while i < c.len()
        invariant
            i <= c.len(),
            views(out@) == fold_dots(views(c@).subrange(0, i as int)),
        decreases c.len() - i,
    {
        let ghost pre = views(c@).subrange(0, i as int);
        let ghost post = views(c@).subrange(0, i + 1);
        assert(post.drop_last() =~= pre);
        assert(post.last() == c@[i as int]@);
        let ghost before = out@;
        if is_dot_component(&c[i]) {
        } else if is_dotdot_component(&c[i]) {
            if out.len() > 0 {
                out.pop();
                assert(views(out@) =~= views(before).drop_last());
            }
        } else {
            out.push(c[i].clone());
            assert(views(out@) =~= views(before).push(c@[i as int]@));
        }
        i += 1;
    }
    assert(views(c@).subrange(0, c.len() as int) =~= views(c@));
    out
}

/// The normal form of a path: its components with `.` and `..` applied,
/// under the root.
pub fn normalize_path(p: &[u8]) -> (r: Vec<u8>)
    ensures
        r@ == normalize(p@),
{
    let c = components_of(p);
    let f = fold_dot_components(c);
    render_components(&f)
}

/// Path equality (`Path`'s `==`).
pub fn paths_equal(a: &[u8], b: &[u8]) -> (r: bool)
    ensures
        r == path_eq(a@, b@),
{
    if is_absolute_path(a) != is_absolute_path(b) {
        return false;
    }
    let ca = components_of(a);
    let cb = components_of(b);
    component_lists_equal(&ca, &cb)
}

/// Whether two lists of components are equal.
pub fn component_lists_equal(a: &Vec<Vec<u8>>, b: &Vec<Vec<u8>>) -> (r: bool)
    ensures
        r == (views(a@) == views(b@)),
{
    if a.len() != b.len() {
        assert(views(a@).len() != views(b@).len());
        return false;
    }
    let mut i: usize = 0;
    while i < a.len()
        invariant
            i <= a.len(),
            a.len() == b.len(),
            forall|k: int| 0 <= k < i ==> a@[k]@ == b@[k]@,
        decreases a.len() - i,
    {
        if !bytes_equal(&a[i], &b[i]) {
            assert(views(a@)[i as int] != views(b@)[i as int]);
            return false;
        }
        i += 1;
    }
    assert(views(a@) =~= views(b@));
    true
}

/// Whether two byte strings are equal.
pub fn bytes_equal(a: &[u8], b: &[u8]) -> (r: bool)
    ensures
        r == (a@ == b@),
{
    if a.len() != b.len() {
        return false;
    }
    let mut i: usize = 0;
    while i < a.len()
        invariant
            i <= a.len(),
            a.len() == b.len(),
            forall|k: int| 0 <= k < i ==> a@[k] == b@[k],
        decreases a.len() - i,
    {
        if a[i] != b[i] {
            return false;
        }
        i += 1;
    }
    assert(a@ =~= b@);
    true
}

/// `Path::starts_with`.
pub fn path_starts_with(p: &[u8], base: &[u8]) -> (r: bool)
    ensures
        r == starts_with(p@, base@),
{
    if is_absolute_path(p) != is_absolute_path(base) {
        return false;
    }
    let cp = components_of(p);
    let cb = components_of(base);
    if cb.len() > cp.len() {
        assert(views(cb@).len() == cb@.len());
        assert(views(cp@).len() == cp@.len());
        assert(components(base@).len() > components(p@).len());
        assert(!starts_with(p@, base@));
        return false;
    }
    let mut i: usize = 0;
    while i < cb.len()
        invariant
            i <= cb.len(),
            cb.len() <= cp.len(),
            views(cp@) == components(p@),
            views(cb@) == components(base@),
            is_absolute(p@) == is_absolute(base@),
            forall|k: int| 0 <= k < i ==> cp@[k]@ == cb@[k]@,
        decreases cb.len() - i,
    {
        if !bytes_equal(&cp[i], &cb[i]) {
            assert(views(cp@).subrange(0, cb.len() as int)[i as int] != views(cb@)[i as int]);
            return false;
        }
        i += 1;
    }
    assert(views(cp@).subrange(0, cb.len() as int) =~= views(cb@));
    true
}

/// Whether `p` is the root path (`Path::new("/")` compares equal to it).
pub fn is_root_path(p: &[u8]) -> (r: bool)
    ensures
        r == is_root(p@),
{
    if !is_absolute_path(p) {
        return false;
    }
    let c = components_of(p);
    c.len() == 0
}


/// The components joined by separators, without a leading one.
pub fn join_relative_components(s: &Vec<Vec<u8>>) -> (r: Vec<u8>)
    ensures
        r@ == join_rel(views(s@)),
{
    let rendered = render_components(s);
    let mut out: Vec<u8> = Vec::new();
    let mut i: usize = 1;
    assert(rendered@ == seq![SEP] + join_rel(views(s@)));
    while i < rendered.len()
        invariant
            1 <= i <= rendered@.len(),
            rendered@ == seq![SEP] + join_rel(views(s@)),
            out@ == rendered@.subrange(1, i as int),
        decreases rendered@.len() - i,
    {
        out.push(rendered[i]);
        assert(rendered@.subrange(1, i + 1) =~= rendered@.subrange(1, i as int).push(
            rendered@[i as int],
        ));
        i += 1;
    }
    assert(rendered@.subrange(1, rendered@.len() as int) =~= join_rel(views(s@)));
    out
}

/// The parent of a path as `Path::parent` names it (`None` for the root
/// and for the empty path), written in normal form.
pub open spec fn parent_path(p: Seq<u8>) -> Option<Seq<u8>> {
    let c = components(p);
    if c.len() == 0 {
        None
    } else if is_absolute(p) {
        Some(render(c.drop_last()))
    } else {
        Some(join_rel(c.drop_last()))
    }
}

pub fn parent_of(p: &[u8]) -> (r: Option<Vec<u8>>)
    ensures
        r matches Some(q) ==> parent_path(p@) == Some(q@),
        r is None ==> parent_path(p@) is None,
{
    let mut c = components_of(p);
    if c.len() == 0 {
        return None;
    }
    let ghost all = views(c@);
    c.pop();
    assert(views(c@) =~= all.drop_last());
    if is_absolute_path(p) {
        Some(render_components(&c))
    } else {
        Some(join_relative_components(&c))
    }
}

} // verus!
