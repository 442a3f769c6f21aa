//! Laws of the byte-path model: normalizing a normal path changes nothing.
use vstd::prelude::*;

use crate::path::{
    components, dot, dotdot, fold_dots, is_normal, join_rel, keeps_segment,
    lemma_components_well_formed, normalize, render, scan, well_formed_components, SEP,
};

verus! {

/// Every component is a name: neither `.` nor `..`.
pub open spec fn all_normal(s: Seq<Seq<u8>>) -> bool {
    forall|i: int| 0 <= i < s.len() ==> is_normal(#[trigger] s[i])
}

/// The scan of the first `n` bytes depends on those bytes only.
proof fn lemma_scan_prefix(a: Seq<u8>, b: Seq<u8>, n: nat)
    requires
        n <= a.len(),
        n <= b.len(),
        a.subrange(0, n as int) == b.subrange(0, n as int),
    ensures
        scan(a, n) == scan(b, n),
    decreases n,
{
    if n > 0 {
        assert(a.subrange(0, n - 1) =~= a.subrange(0, n as int).subrange(0, n - 1));
        assert(b.subrange(0, n - 1) =~= b.subrange(0, n as int).subrange(0, n - 1));
        lemma_scan_prefix(a, b, (n - 1) as nat);
        assert(a[n - 1] == a.subrange(0, n as int)[n - 1]);
        assert(b[n - 1] == b.subrange(0, n as int)[n - 1]);
    }
}

/// Scanning the bytes of a segment without separators extends the current
/// segment by them.
proof fn lemma_scan_segment(p: Seq<u8>, m: nat, x: Seq<u8>, k: nat)
    requires
        k <= x.len(),
        m + x.len() <= p.len(),
        p.subrange(m as int, (m + x.len()) as int) == x,
        !x.contains(SEP),
    ensures
        scan(p, m + k) == (scan(p, m).0, scan(p, m).1 + x.subrange(0, k as int), scan(p, m).2),
    decreases k,
{
    if k == 0 {
        assert(scan(p, m).1 + x.subrange(0, 0) =~= scan(p, m).1);
    } else {
        lemma_scan_segment(p, m, x, (k - 1) as nat);
        assert(p[m + k - 1] == x[k - 1]) by {
            assert(p.subrange(m as int, (m + x.len()) as int)[k - 1] == p[m + k - 1]);
        }
        assert(x[k - 1] != SEP) by {
            if x[k - 1] == SEP {
                assert(x.contains(SEP));
            }
        }
        assert(scan(p, m).1 + x.subrange(0, k as int) =~= (scan(p, m).1 + x.subrange(
            0,
            k - 1,
        )).push(x[k - 1]));
    }
}

/// The scan of a rendered list of names ends with all but the last name
/// found and the last one as the current segment.
proof fn lemma_scan_render(s: Seq<Seq<u8>>)
    requires
        s.len() > 0,
        well_formed_components(s),
        all_normal(s),
    ensures
        scan(render(s), render(s).len()) == (s.drop_last(), s.last(), false),
    decreases s.len(),
{
    let p = render(s);
    let x = s.last();
    if s.len() == 1 {
        assert(join_rel(s) == s[0]);
        assert(p == seq![SEP] + x);
        assert(scan(p, 1) == (Seq::<Seq<u8>>::empty(), Seq::<u8>::empty(), false)) by {
            assert(p[0] == SEP);
            assert(scan(p, 0) == (Seq::<Seq<u8>>::empty(), Seq::<u8>::empty(), true));
        }
        assert(p.subrange(1, (1 + x.len()) as int) =~= x);
        lemma_scan_segment(p, 1, x, x.len());
        assert(x.subrange(0, x.len() as int) =~= x);
        assert(Seq::<u8>::empty() + x =~= x);
        assert(s.drop_last() =~= Seq::<Seq<u8>>::empty());
    } else {
        let s1 = s.drop_last();
        assert(well_formed_components(s1));
        assert(all_normal(s1));
        lemma_scan_render(s1);
        let p1 = render(s1);
        assert(join_rel(s) == join_rel(s1) + seq![SEP] + x);
        assert(p =~= p1 + seq![SEP] + x);
        assert(p.subrange(0, p1.len() as int) =~= p1);
        assert(p1.subrange(0, p1.len() as int) =~= p1);
        lemma_scan_prefix(p, p1, p1.len());
        let m = p1.len() + 1;
        assert(p[m - 1] == SEP);
        let y = s1.last();
        assert(is_normal(s1[s1.len() - 1]));
        assert(s1[s1.len() - 1] == y);
        assert(keeps_segment(y, false));
        assert(scan(p, m) == (s1.drop_last().push(y), Seq::<u8>::empty(), false));
        assert(s1.drop_last().push(y) =~= s1);
        assert(p.subrange(m as int, (m + x.len()) as int) =~= x);
        lemma_scan_segment(p, m, x, x.len());
        assert(x.subrange(0, x.len() as int) =~= x);
        assert(Seq::<u8>::empty() + x =~= x);
    }
}

/// Law: the components of a rendered list of names are those names.
pub proof fn lemma_components_render(s: Seq<Seq<u8>>)
    requires
        well_formed_components(s),
        all_normal(s),
    ensures
        components(render(s)) == s,
{
    if s.len() == 0 {
        let p = render(s);
        assert(p =~= seq![SEP]);
        assert(scan(p, 0) == (Seq::<Seq<u8>>::empty(), Seq::<u8>::empty(), true));
        assert(components(p) =~= s);
    } else {
        lemma_scan_render(s);
        let x = s.last();
        assert(is_normal(s[s.len() - 1]));
        assert(s.drop_last().push(x) =~= s);
    }
}

/// Folding `.` and `..` leaves only names, each a well-formed component.
proof fn lemma_fold_dots_names(c: Seq<Seq<u8>>)
    requires
        well_formed_components(c),
    ensures
        well_formed_components(fold_dots(c)),
        all_normal(fold_dots(c)),
    decreases c.len(),
{
    if c.len() > 0 {
        let c1 = c.drop_last();
        assert(well_formed_components(c1));
        lemma_fold_dots_names(c1);
        let r = fold_dots(c1);
        let x = c.last();
        assert(c[c.len() - 1] == x);
        if x != dot() && x != dotdot() {
            assert(r.push(x)[r.len() as int] == x);
            assert forall|i: int| 0 <= i < r.push(x).len() implies is_normal(#[trigger] r.push(x)[i]) by {
                if i < r.len() {
                    assert(r.push(x)[i] == r[i]);
                }
            }
        }
    }
}

/// Folding a list of names changes nothing.
proof fn lemma_fold_dots_names_fixed(s: Seq<Seq<u8>>)
    requires
        all_normal(s),
    ensures
        fold_dots(s) == s,
    decreases s.len(),
{
    if s.len() > 0 {
        let s1 = s.drop_last();
        assert(all_normal(s1));
        lemma_fold_dots_names_fixed(s1);
        assert(is_normal(s[s.len() - 1]));
        assert(s1.push(s.last()) =~= s);
    }
}

/// Law: a normalized path is its own normal form, so resolving a virtual
/// path a second time gives it back.
pub proof fn law_normalize_idempotent(p: Seq<u8>)
    ensures
        normalize(normalize(p)) == normalize(p),
{
    let c = components(p);
    lemma_components_well_formed(p);
    lemma_fold_dots_names(c);
    let t = fold_dots(c);
    lemma_components_render(t);
    lemma_fold_dots_names_fixed(t);
}

/// Law: folding the components of a path, each `..` removes the last
/// component kept so far (none at the top), whatever came before it, and
/// each name is kept; `.` changes nothing.
pub proof fn law_fold_dots_steps(s: Seq<Seq<u8>>, c: Seq<u8>)
    ensures
        fold_dots(s.push(dotdot())) == (if fold_dots(s).len() > 0 {
            fold_dots(s).drop_last()
        } else {
            fold_dots(s)
        }),
        fold_dots(s.push(dot())) == fold_dots(s),
        is_normal(c) ==> fold_dots(s.push(c)) == fold_dots(s).push(c),
{
    assert(dot().len() == 1 && dotdot().len() == 2);
    assert(s.push(dotdot()).drop_last() =~= s);
    assert(s.push(dot()).drop_last() =~= s);
    assert(s.push(c).drop_last() =~= s);
}

/// Law: `..` after names goes back over them one by one: folding names and
/// then `k` times `..` drops the last `k` names (all of them, and no more,
/// when `k` is larger).
pub proof fn law_fold_dots_goes_up(s: Seq<Seq<u8>>, k: nat)
    requires
        all_normal(s),
    ensures
        fold_dots(s + Seq::new(k, |i: int| dotdot())) == s.subrange(
            0,
            if k <= s.len() {
                s.len() - k
            } else {
                0
            },
        ),
    decreases k,
{
    if k == 0 {
        assert(s + Seq::new(0, |i: int| dotdot()) =~= s);
        lemma_fold_names(s);
        assert(s.subrange(0, s.len() as int) =~= s);
    } else {
        let k1 = (k - 1) as nat;
        law_fold_dots_goes_up(s, k1);
        let t = s + Seq::new(k1, |i: int| dotdot());
        assert(s + Seq::new(k, |i: int| dotdot()) =~= t.push(dotdot()));
        law_fold_dots_steps(t, dotdot());
    }
}

/// Folding names keeps them all.
proof fn lemma_fold_names(s: Seq<Seq<u8>>)
    requires
        all_normal(s),
    ensures
        fold_dots(s) == s,
    decreases s.len(),
{
    if s.len() > 0 {
        lemma_fold_names(s.drop_last());
        assert(is_normal(s.last()));
        assert(s.drop_last().push(s.last()) =~= s);
    }
}

} // verus!
