//! The entries of a directory: names mapped to node ids, kept in byte order
//! so that listings come out sorted, as a `BTreeMap` keyed by name would.
use vstd::prelude::*;

verus! {

/// Byte-wise lexicographic order on names (the order of `OsStr` on Unix).
pub open spec fn name_lt(a: Seq<u8>, b: Seq<u8>) -> bool
    decreases a.len(),
{
    if a.len() == 0 {
        b.len() > 0
    } else if b.len() == 0 {
        false
    } else if a[0] != b[0] {
        a[0] < b[0]
    } else {
        name_lt(a.drop_first(), b.drop_first())
    }
}

pub proof fn lemma_name_lt_irreflexive(a: Seq<u8>)
    ensures
        !name_lt(a, a),
    decreases a.len(),
{
    if a.len() > 0 {
        lemma_name_lt_irreflexive(a.drop_first());
    }
}

pub proof fn lemma_name_lt_transitive(a: Seq<u8>, b: Seq<u8>, c: Seq<u8>)
    requires
        name_lt(a, b),
        name_lt(b, c),
    ensures
        name_lt(a, c),
    decreases a.len(),
{
    if a.len() > 0 && b.len() > 0 && c.len() > 0 {
        if a[0] == b[0] && b[0] == c[0] {
            lemma_name_lt_transitive(a.drop_first(), b.drop_first(), c.drop_first());
        }
    }
}

pub proof fn lemma_name_lt_total(a: Seq<u8>, b: Seq<u8>)
    ensures
        a == b || name_lt(a, b) || name_lt(b, a),
    decreases a.len(),
{
    if a.len() == 0 && b.len() == 0 {
        assert(a =~= b);
    } else if a.len() > 0 && b.len() > 0 && a[0] == b[0] {
        lemma_name_lt_total(a.drop_first(), b.drop_first());
        if a.drop_first() == b.drop_first() {
            assert(a =~= seq![a[0]] + a.drop_first());
            assert(b =~= seq![b[0]] + b.drop_first());
        }
    }
}

pub proof fn lemma_name_lt_asymmetric(a: Seq<u8>, b: Seq<u8>)
    requires
        name_lt(a, b),
    ensures
        !name_lt(b, a),
{
    if name_lt(b, a) {
        lemma_name_lt_transitive(a, b, a);
        lemma_name_lt_irreflexive(a);
    }
}

proof fn lemma_name_lt_skip(a: Seq<u8>, b: Seq<u8>, i: int)
    requires
        0 <= i <= a.len(),
        i <= b.len(),
        a.subrange(0, i) == b.subrange(0, i),
    ensures
        name_lt(a, b) == name_lt(a.skip(i), b.skip(i)),
    decreases i,
{
    if i > 0 {
        assert(a[0] == a.subrange(0, i)[0]);
        assert(b[0] == b.subrange(0, i)[0]);
        assert(a.drop_first().subrange(0, i - 1) =~= a.subrange(0, i).drop_first());
        assert(b.drop_first().subrange(0, i - 1) =~= b.subrange(0, i).drop_first());
        lemma_name_lt_skip(a.drop_first(), b.drop_first(), i - 1);
        assert(a.drop_first().skip(i - 1) =~= a.skip(i));
        assert(b.drop_first().skip(i - 1) =~= b.skip(i));
    } else {
        assert(a.skip(0) =~= a);
        assert(b.skip(0) =~= b);
    }
}

/// Compares two names: negative, zero or positive as `a` sorts before,
/// equals, or sorts after `b`.
pub fn name_order(a: &[u8], b: &[u8]) -> (r: i8)
    ensures
        r < 0 <==> name_lt(a@, b@),
        r == 0 <==> a@ == b@,
        r > 0 <==> name_lt(b@, a@),
{
    let mut i: usize = 0;
    while i < a.len() && i < b.len()
        invariant
            i <= a.len(),
            i <= b.len(),
            a@.subrange(0, i as int) == b@.subrange(0, i as int),
        decreases a.len() - i,
    {
        if a[i] != b[i] {
            proof {
                lemma_name_lt_skip(a@, b@, i as int);
                lemma_name_lt_skip(b@, a@, i as int);
                assert(a@.skip(i as int)[0] == a@[i as int]);
                assert(b@.skip(i as int)[0] == b@[i as int]);
                assert(a@ != b@ ==> true);
                assert(a@[i as int] != b@[i as int]);
            }
            if a[i] < b[i] {
                return -1;
            } else {
                return 1;
            }
        }
        assert(a@.subrange(0, i + 1) =~= a@.subrange(0, i as int).push(a@[i as int]));
        assert(b@.subrange(0, i + 1) =~= b@.subrange(0, i as int).push(b@[i as int]));
        i += 1;
    }
    proof {
        lemma_name_lt_skip(a@, b@, i as int);
        lemma_name_lt_skip(b@, a@, i as int);
    }
    if a.len() == b.len() {
        assert(a@ =~= a@.subrange(0, i as int));
        assert(b@ =~= b@.subrange(0, i as int));
        proof {
            lemma_name_lt_irreflexive(a@);
        }
        0
    } else if a.len() < b.len() {
        assert(a@.skip(i as int).len() == 0);
        assert(a@ != b@);
        -1
    } else {
        assert(b@.skip(i as int).len() == 0);
        assert(a@ != b@);
        1
    }
}

/// Names strictly increase along the listing.
pub open spec fn sorted(l: Seq<(Seq<u8>, u64)>) -> bool {
    forall|i: int, j: int| 0 <= i < j < l.len() ==> name_lt(#[trigger] l[i].0, #[trigger] l[j].0)
}

pub open spec fn has_name(l: Seq<(Seq<u8>, u64)>, n: Seq<u8>) -> bool {
    exists|i: int| 0 <= i < l.len() && #[trigger] l[i].0 == n
}

/// The position of `n` in the listing (meaningful when it is there).
pub open spec fn index_of(l: Seq<(Seq<u8>, u64)>, n: Seq<u8>) -> int {
    choose|i: int| 0 <= i < l.len() && #[trigger] l[i].0 == n
}

/// The name-to-id map that a listing stands for.
pub open spec fn entry_map(l: Seq<(Seq<u8>, u64)>) -> Map<Seq<u8>, u64> {
    Map::new(|n: Seq<u8>| has_name(l, n), |n: Seq<u8>| l[index_of(l, n)].1)
}

/// The place where a new name goes so that the listing stays sorted.
pub open spec fn insert_pos(l: Seq<(Seq<u8>, u64)>, n: Seq<u8>) -> int {
    choose|i: int| is_insert_pos(l, n, i)
}

/// Names before position `i` sort before `n`, and the others do not.
pub open spec fn is_insert_pos(l: Seq<(Seq<u8>, u64)>, n: Seq<u8>, i: int) -> bool {
    0 <= i <= l.len() && (forall|j: int| 0 <= j < i ==> name_lt(#[trigger] l[j].0, n)) && (forall|
        j: int,
    |
        i <= j < l.len() ==> !name_lt(#[trigger] l[j].0, n))
}

/// The listing after `n` is bound to `id`.
pub open spec fn listing_insert(l: Seq<(Seq<u8>, u64)>, n: Seq<u8>, id: u64) -> Seq<
    (Seq<u8>, u64),
> {
    if has_name(l, n) {
        l.update(index_of(l, n), (n, id))
    } else {
        l.insert(insert_pos(l, n), (n, id))
    }
}

/// The listing after `n` is unbound.
pub open spec fn listing_remove(l: Seq<(Seq<u8>, u64)>, n: Seq<u8>) -> Seq<(Seq<u8>, u64)> {
    if has_name(l, n) {
        l.remove(index_of(l, n))
    } else {
        l
    }
}

pub proof fn lemma_sorted_index_unique(l: Seq<(Seq<u8>, u64)>, i: int, j: int)
    requires
        sorted(l),
        0 <= i < l.len(),
        0 <= j < l.len(),
        l[i].0 == l[j].0,
    ensures
        i == j,
{
    if i < j {
        lemma_name_lt_irreflexive(l[i].0);
        assert(name_lt(l[i].0, l[j].0));
    } else if j < i {
        lemma_name_lt_irreflexive(l[i].0);
        assert(name_lt(l[j].0, l[i].0));
    }
}

/// In a sorted listing, the name at a position is found at that position.
pub proof fn lemma_index_of(l: Seq<(Seq<u8>, u64)>, i: int)
    requires
        sorted(l),
        0 <= i < l.len(),
    ensures
        has_name(l, l[i].0),
        index_of(l, l[i].0) == i,
        entry_map(l).contains_key(l[i].0),
        entry_map(l)[l[i].0] == l[i].1,
{
    assert(has_name(l, l[i].0));
    let k = index_of(l, l[i].0);
    lemma_sorted_index_unique(l, i, k);
}

/// Binding a name in a sorted listing binds it in the map the listing
/// stands for, and leaves every other name as it was.
pub proof fn lemma_entry_map_insert(l: Seq<(Seq<u8>, u64)>, n: Seq<u8>, id: u64)
    requires
        sorted(l),
        sorted(listing_insert(l, n, id)),
    ensures
        entry_map(listing_insert(l, n, id)) == entry_map(l).insert(n, id),
{
    let l2 = listing_insert(l, n, id);
    let m = entry_map(l);
    let m2 = entry_map(l2);
    if has_name(l, n) {
        let k = index_of(l, n);
        assert forall|x: Seq<u8>| #[trigger] has_name(l2, x) <==> has_name(l, x) || x == n by {
            if has_name(l2, x) {
                let i = choose|i: int| 0 <= i < l2.len() && #[trigger] l2[i].0 == x;
                if i != k {
                    assert(l[i].0 == x);
                }
            }
            if has_name(l, x) {
                let i = choose|i: int| 0 <= i < l.len() && #[trigger] l[i].0 == x;
                if i != k {
                    assert(l2[i].0 == x);
                } else {
                    assert(l2[k].0 == n);
                }
            }
        }
        assert forall|x: Seq<u8>| #[trigger] m2.contains_key(x) implies m2[x] == m.insert(n, id)[x] by {
            let i = index_of(l2, x);
            lemma_index_of(l2, i);
            if i == k {
                assert(l2[i] == (n, id));
            } else {
                assert(l2[i] == l[i]);
                lemma_index_of(l, i);
            }
        }
        assert(m2 =~= m.insert(n, id));
    } else {
        lemma_insert_pos_exists(l, n);
        let p = insert_pos(l, n);
        assert(is_insert_pos(l, n, p));
        assert forall|x: Seq<u8>| #[trigger] has_name(l2, x) <==> has_name(l, x) || x == n by {
            if has_name(l2, x) {
                let i = choose|i: int| 0 <= i < l2.len() && #[trigger] l2[i].0 == x;
                if i < p {
                    assert(l[i].0 == x);
                } else if i > p {
                    assert(l[i - 1].0 == x);
                }
            }
            if has_name(l, x) {
                let i = choose|i: int| 0 <= i < l.len() && #[trigger] l[i].0 == x;
                if i < p {
                    assert(l2[i].0 == x);
                } else {
                    assert(l2[i + 1].0 == x);
                }
            }
            if x == n {
                assert(l2[p].0 == n);
            }
        }
        assert forall|x: Seq<u8>| #[trigger] m2.contains_key(x) implies m2[x] == m.insert(n, id)[x] by {
            let i = index_of(l2, x);
            lemma_index_of(l2, i);
            if i == p {
                assert(l2[i] == (n, id));
            } else if i < p {
                assert(l2[i] == l[i]);
                lemma_index_of(l, i);
            } else {
                assert(l2[i] == l[i - 1]);
                lemma_index_of(l, i - 1);
            }
        }
        assert(m2 =~= m.insert(n, id));
    }
}

/// Unbinding a name in a sorted listing unbinds it in the map the listing
/// stands for, and leaves every other name as it was.
pub proof fn lemma_entry_map_remove(l: Seq<(Seq<u8>, u64)>, n: Seq<u8>)
    requires
        sorted(l),
        sorted(listing_remove(l, n)),
    ensures
        entry_map(listing_remove(l, n)) == entry_map(l).remove(n),
{
    let l2 = listing_remove(l, n);
    let m = entry_map(l);
    let m2 = entry_map(l2);
    if has_name(l, n) {
        let k = index_of(l, n);
        assert forall|x: Seq<u8>| #[trigger] has_name(l2, x) <==> has_name(l, x) && x != n by {
            if has_name(l2, x) {
                let i = choose|i: int| 0 <= i < l2.len() && #[trigger] l2[i].0 == x;
                if i < k {
                    assert(l[i].0 == x);
                    if x == n {
                        lemma_sorted_index_unique(l, i, k);
                    }
                } else {
                    assert(l[i + 1].0 == x);
                    if x == n {
                        lemma_sorted_index_unique(l, i + 1, k);
                    }
                }
            }
            if has_name(l, x) && x != n {
                let i = choose|i: int| 0 <= i < l.len() && #[trigger] l[i].0 == x;
                if i < k {
                    assert(l2[i].0 == x);
                } else {
                    assert(i != k);
                    assert(l2[i - 1].0 == x);
                }
            }
        }
        assert forall|x: Seq<u8>| #[trigger] m2.contains_key(x) implies m2[x] == m.remove(n)[x] by {
            let i = index_of(l2, x);
            lemma_index_of(l2, i);
            if i < k {
                assert(l2[i] == l[i]);
                lemma_index_of(l, i);
            } else {
                assert(l2[i] == l[i + 1]);
                lemma_index_of(l, i + 1);
            }
        }
        assert(m2 =~= m.remove(n));
    } else {
        assert(m2 =~= m.remove(n));
    }
}

/// Unbinding a name keeps a listing sorted.
pub proof fn lemma_sorted_remove(l: Seq<(Seq<u8>, u64)>, n: Seq<u8>)
    requires
        sorted(l),
    ensures
        sorted(listing_remove(l, n)),
{
    if has_name(l, n) {
        let k = index_of(l, n);
        let l2 = l.remove(k);
        assert forall|a: int, b: int| 0 <= a < b < l2.len() implies name_lt(
            #[trigger] l2[a].0,
            #[trigger] l2[b].0,
        ) by {
            let a1 = if a < k { a } else { a + 1 };
            let b1 = if b < k { b } else { b + 1 };
            assert(l2[a] == l[a1]);
            assert(l2[b] == l[b1]);
        }
    }
}

/// A sorted listing has a place for every new name.
proof fn lemma_insert_pos_exists(l: Seq<(Seq<u8>, u64)>, n: Seq<u8>)
    requires
        sorted(l),
    ensures
        exists|i: int| is_insert_pos(l, n, i),
    decreases l.len(),
{
    if l.len() == 0 {
        assert(is_insert_pos(l, n, 0));
    } else {
        let l1 = l.drop_last();
        assert(sorted(l1));
        lemma_insert_pos_exists(l1, n);
        let i = choose|i: int| is_insert_pos(l1, n, i);
        let last = l.len() - 1;
        if i < l1.len() {
            assert(!name_lt(l1[i].0, n));
            assert(name_lt(l[i].0, l[last].0));
            if name_lt(l[last].0, n) {
                lemma_name_lt_transitive(l[i].0, l[last].0, n);
            }
            assert forall|j: int| 0 <= j < i implies name_lt(#[trigger] l[j].0, n) by {
                assert(l[j] == l1[j]);
            }
            assert forall|j: int| i <= j < l.len() implies !name_lt(#[trigger] l[j].0, n) by {
                if j < last {
                    assert(l[j] == l1[j]);
                }
            }
            assert(is_insert_pos(l, n, i));
        } else if name_lt(l[last].0, n) {
            assert forall|j: int| 0 <= j < l.len() implies name_lt(#[trigger] l[j].0, n) by {
                if j < last {
                    assert(l[j] == l1[j]);
                }
            }
            assert(is_insert_pos(l, n, l.len() as int));
        } else {
            assert forall|j: int| 0 <= j < last implies name_lt(#[trigger] l[j].0, n) by {
                assert(l[j] == l1[j]);
            }
            assert(is_insert_pos(l, n, last));
        }
    }
}

proof fn lemma_insert_pos(l: Seq<(Seq<u8>, u64)>, n: Seq<u8>, i: int)
    requires
        0 <= i <= l.len(),
        forall|j: int| 0 <= j < i ==> name_lt(#[trigger] l[j].0, n),
        forall|j: int| i <= j < l.len() ==> !name_lt(#[trigger] l[j].0, n),
    ensures
        insert_pos(l, n) == i,
{
    assert(is_insert_pos(l, n, i));
    let k = insert_pos(l, n);
    assert(0 <= k <= l.len());
    if k < i {
        assert(name_lt(l[k].0, n));
    } else if i < k {
        assert(name_lt(l[i].0, n));
    }
}

/// The entries of one directory, in name order.
#[derive(Debug)]
pub struct DirEntries {
    items: Vec<(Vec<u8>, u64)>,
}

impl DirEntries {
    /// The entries as a sorted sequence of name and id.
    pub closed spec fn listing(&self) -> Seq<(Seq<u8>, u64)> {
        Seq::new(self.items@.len(), |i: int| (self.items@[i].0@, self.items@[i].1))
    }

    pub open spec fn wf(&self) -> bool {
        sorted(self.listing())
    }

    /// The entries as a map from name to node id.
    pub open spec fn map(&self) -> Map<Seq<u8>, u64> {
        entry_map(self.listing())
    }

    pub fn new() -> (r: Self)
        ensures
            r.listing() == Seq::<(Seq<u8>, u64)>::empty(),
            r.wf(),
    {
        let r = DirEntries { items: Vec::new() };
        assert(r.listing() =~= Seq::<(Seq<u8>, u64)>::empty());
        r
    }

    pub fn len(&self) -> (r: usize)
        ensures
            r == self.listing().len(),
    {
        self.items.len()
    }

    pub fn is_empty(&self) -> (r: bool)
        ensures
            r == (self.listing().len() == 0),
    {
        self.items.len() == 0
    }

    /// The name and id at position `i` of the listing.
    pub fn entry(&self, i: usize) -> (r: (&Vec<u8>, u64))
        requires
            i < self.listing().len(),
        ensures
            r.0@ == self.listing()[i as int].0,
            r.1 == self.listing()[i as int].1,
    {
        (&self.items[i].0, self.items[i].1)
    }

    /// The position of `name`, if bound.
    fn find(&self, name: &[u8]) -> (r: Option<usize>)
        requires
            self.wf(),
        ensures
            r is None ==> !has_name(self.listing(), name@),
            r matches Some(i) ==> i < self.listing().len() && self.listing()[i as int].0 == name@
                && index_of(self.listing(), name@) == i,
    {
        let mut i: usize = 0;
        while i < self.items.len()
            invariant
                i <= self.items@.len(),
                self.wf(),
                forall|j: int| 0 <= j < i ==> self.listing()[j].0 != name@,
            decreases self.items@.len() - i,
        {
            let o = name_order(&self.items[i].0, name);
            assert(self.listing()[i as int].0 == self.items@[i as int].0@);
            if o == 0 {
                proof {
                    lemma_index_of(self.listing(), i as int);
                }
                return Some(i);
            }
            i += 1;
        }
        None
    }

    /// The id bound to `name`.
    pub fn get(&self, name: &[u8]) -> (r: Option<u64>)
        requires
            self.wf(),
        ensures
            r == (if self.map().contains_key(name@) {
                Some(self.map()[name@])
            } else {
                None
            }),
    {
        match self.find(name) {
            Some(i) => {
                proof {
                    lemma_index_of(self.listing(), i as int);
                }
                Some(self.items[i].1)
            },
            None => None,
        }
    }

    /// Binds `name` to `id`, returning the id it was bound to before.
    pub fn insert(&mut self, name: Vec<u8>, id: u64) -> (r: Option<u64>)
        requires
            old(self).wf(),
        ensures
            final(self).wf(),
            final(self).listing() == listing_insert(old(self).listing(), name@, id),
            forall|i: int|
                0 <= i < final(self).listing().len() ==> #[trigger] final(self).listing()[i] == (
                name@,
                id,
            ) || old(self).listing().contains(final(self).listing()[i]),
            r == (if old(self).map().contains_key(name@) {
                Some(old(self).map()[name@])
            } else {
                None
            }),
    {
        let ghost l = self.listing();
        match self.find(&name) {
            Some(i) => {
                proof {
                    lemma_index_of(l, i as int);
                }
                let prev = self.items[i].1;
                let ghost n = name@;
                self.items.set(i, (name, id));
                assert(self.listing() =~= l.update(i as int, (n, id)));
                assert forall|k: int| 0 <= k < self.listing().len() implies #[trigger] self.listing()[k] == (n, id)
                    || l.contains(self.listing()[k]) by {
                    if k != i {
                        assert(self.listing()[k] == l[k]);
                    }
                }
                Some(prev)
            },
            None => {
                let mut i: usize = 0;
                while i < self.items.len()
                    invariant
                        i <= self.items@.len(),
                        self.listing() == l,
                        sorted(l),
                        forall|j: int| 0 <= j < i ==> name_lt(#[trigger] l[j].0, name@),
                    ensures
                        i <= self.items@.len(),
                        self.listing() == l,
                        forall|j: int| 0 <= j < i ==> name_lt(#[trigger] l[j].0, name@),
                        i < self.items@.len() ==> !name_lt(l[i as int].0, name@),
                    decreases self.items@.len() - i,
                {
                    let o = name_order(&self.items[i].0, &name);
                    assert(l[i as int].0 == self.items@[i as int].0@);
                    if o >= 0 {
                        assert(!name_lt(l[i as int].0, name@));
                        break;
                    }
                    i += 1;
                }
                proof {
                    assert forall|j: int| i <= j < l.len() implies !name_lt(#[trigger] l[j].0, name@) by {
                        assert(!name_lt(l[i as int].0, name@));
                        if j > i {
                            assert(name_lt(l[i as int].0, l[j].0));
                            lemma_name_lt_total(l[i as int].0, name@);
                            if l[i as int].0 == name@ {
                                lemma_name_lt_asymmetric(name@, l[j].0);
                            } else {
                                lemma_name_lt_transitive(name@, l[i as int].0, l[j].0);
                                lemma_name_lt_asymmetric(name@, l[j].0);
                            }
                        }
                    }
                    lemma_insert_pos(l, name@, i as int);
                }
                let ghost n = name@;
                self.items.insert(i, (name, id));
                let ghost nl = l.insert(i as int, (n, id));
                assert(self.listing() =~= nl);
                assert forall|k: int| 0 <= k < nl.len() implies #[trigger] nl[k] == (n, id)
                    || l.contains(nl[k]) by {
                    if k < i {
                        assert(nl[k] == l[k]);
                    } else if k > i {
                        assert(nl[k] == l[k - 1]);
                    }
                }
                proof {
                    assert forall|a: int, b: int| 0 <= a < b < nl.len() implies name_lt(
                        #[trigger] nl[a].0,
                        #[trigger] nl[b].0,
                    ) by {
                        if b < i {
                        } else if b == i {
                        } else if a < i {
                            assert(nl[b].0 == l[b - 1].0);
                            lemma_name_lt_total(n, l[b - 1].0);
                            assert(n != l[b - 1].0);
                            assert(!name_lt(l[b - 1].0, n));
                            lemma_name_lt_transitive(nl[a].0, n, nl[b].0);
                        } else if a == i {
                            lemma_name_lt_total(n, l[b - 1].0);
                            assert(n != l[b - 1].0);
                        } else {
                            assert(nl[a].0 == l[a - 1].0);
                            assert(nl[b].0 == l[b - 1].0);
                        }
                    }
                }
                None
            },
        }
    }

    /// Unbinds `name`.
    pub fn remove(&mut self, name: &[u8])
        requires
            old(self).wf(),
        ensures
            final(self).wf(),
            final(self).listing() == listing_remove(old(self).listing(), name@),
            forall|i: int|
                0 <= i < final(self).listing().len() ==> old(self).listing().contains(
                    #[trigger] final(self).listing()[i],
                ),
    {
        let ghost l = self.listing();
        match self.find(name) {
            Some(i) => {
                self.items.remove(i);
                let ghost nl = l.remove(i as int);
                assert(self.listing() =~= nl);
                assert forall|k: int| 0 <= k < nl.len() implies l.contains(#[trigger] nl[k]) by {
                    if k < i {
                        assert(nl[k] == l[k]);
                    } else {
                        assert(nl[k] == l[k + 1]);
                    }
                }
                assert forall|a: int, b: int| 0 <= a < b < nl.len() implies name_lt(
                    #[trigger] nl[a].0,
                    #[trigger] nl[b].0,
                ) by {
                    if b < i {
                    } else if a < i {
                        assert(nl[b].0 == l[b + 1].0);
                    } else {
                        assert(nl[a].0 == l[a + 1].0);
                        assert(nl[b].0 == l[b + 1].0);
                    }
                }
            },
            None => {},
        }
    }
}

} // verus!
