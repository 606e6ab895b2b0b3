//! A disjoint-set forest over `u32` element ids, with path compression.
use vstd::prelude::*;

verus! {

/// The node reached from `i` after following `k` parent links.
pub open spec fn parent_iter(p: Seq<u32>, i: int, k: nat) -> int
    decreases k,
{
    if k == 0 {
        i
    } else {
        parent_iter(p, p[i] as int, (k - 1) as nat)
    }
}

/// `r` is its own parent.
pub open spec fn is_root(p: Seq<u32>, r: int) -> bool {
    p[r] == r
}

/// Following parents from `i` arrives at a root after some number of steps.
pub open spec fn reaches_root(p: Seq<u32>, i: int) -> bool {
    exists|k: nat| #[trigger] is_root(p, parent_iter(p, i, k))
}

/// Every parent is an element, and every element reaches a root.
pub open spec fn is_forest(p: Seq<u32>) -> bool {
    &&& forall|i: int| 0 <= i < p.len() ==> #[trigger] p[i] < p.len()
    &&& forall|i: int| 0 <= i < p.len() ==> #[trigger] reaches_root(p, i)
}

/// The root that element `i` reaches.
pub open spec fn root_of(p: Seq<u32>, i: int) -> int {
    parent_iter(p, i, choose|k: nat| #[trigger] is_root(p, parent_iter(p, i, k)))
}

/// Once at a root, following parents stays there.
pub proof fn lemma_root_fixed(p: Seq<u32>, r: int, k: nat)
    requires
        is_root(p, r),
    ensures
        parent_iter(p, r, k) == r,
    decreases k,
{
    if k > 0 {
        lemma_root_fixed(p, r, (k - 1) as nat);
    }
}

/// Following `a + b` links is following `a` links, then `b`.
pub proof fn lemma_iter_compose(p: Seq<u32>, i: int, a: nat, b: nat)
    ensures
        parent_iter(p, i, a + b) == parent_iter(p, parent_iter(p, i, a), b),
    decreases a,
{
    if a > 0 {
        lemma_iter_compose(p, p[i] as int, (a - 1) as nat, b);
        assert((a + b - 1) as nat == ((a - 1) as nat + b) as nat);
    }
}

/// Following links from an element stays among the elements.
pub proof fn lemma_iter_in_range(p: Seq<u32>, i: int, k: nat)
    requires
        forall|j: int| 0 <= j < p.len() ==> #[trigger] p[j] < p.len(),
        0 <= i < p.len(),
    ensures
        0 <= parent_iter(p, i, k) < p.len(),
    decreases k,
{
    if k > 0 {
        lemma_iter_in_range(p, p[i] as int, (k - 1) as nat);
    }
}

/// Two roots reached from one element are the same root.
pub proof fn lemma_root_unique(p: Seq<u32>, i: int, a: nat, b: nat)
    requires
        is_root(p, parent_iter(p, i, a)),
        is_root(p, parent_iter(p, i, b)),
    ensures
        parent_iter(p, i, a) == parent_iter(p, i, b),
{
    if a <= b {
        lemma_iter_compose(p, i, a, (b - a) as nat);
        lemma_root_fixed(p, parent_iter(p, i, a), (b - a) as nat);
        assert(a + (b - a) as nat == b);
    } else {
        lemma_iter_compose(p, i, b, (a - b) as nat);
        lemma_root_fixed(p, parent_iter(p, i, b), (a - b) as nat);
        assert(b + (a - b) as nat == a);
    }
}

/// In a forest, `root_of(p, i)` is the root that `i` reaches, whichever number of
/// steps reaches one.
pub proof fn lemma_root_of(p: Seq<u32>, i: int)
    requires
        is_forest(p),
        0 <= i < p.len(),
    ensures
        is_root(p, root_of(p, i)),
        0 <= root_of(p, i) < p.len(),
        forall|k: nat| #[trigger] is_root(p, parent_iter(p, i, k)) ==> parent_iter(p, i, k) == root_of(p, i),
{
    assert(reaches_root(p, i));
    let k0 = choose|k: nat| #[trigger] is_root(p, parent_iter(p, i, k));
    lemma_iter_in_range(p, i, k0);
    assert forall|k: nat| #[trigger] is_root(p, parent_iter(p, i, k)) implies parent_iter(p, i, k) == root_of(
        p,
        i,
    ) by {
        lemma_root_unique(p, i, k, k0);
    }
}

/// A non-root element has the root of its parent.
pub proof fn lemma_root_of_parent(p: Seq<u32>, i: int)
    requires
        is_forest(p),
        0 <= i < p.len(),
    ensures
        root_of(p, p[i] as int) == root_of(p, i),
{
    lemma_root_of(p, i);
    lemma_root_of(p, p[i] as int);
    if is_root(p, i) {
    } else {
        assert(reaches_root(p, i));
        let k0 = choose|k: nat| #[trigger] is_root(p, parent_iter(p, i, k));
        assert(k0 > 0);
        assert(parent_iter(p, i, k0) == parent_iter(p, p[i] as int, (k0 - 1) as nat));
    }
}

/// A root is its own root.
pub proof fn lemma_root_of_root(p: Seq<u32>, r: int)
    requires
        is_forest(p),
        0 <= r < p.len(),
        is_root(p, r),
    ensures
        root_of(p, r) == r,
{
    lemma_root_of(p, r);
    assert(parent_iter(p, r, 0) == r);
}

/// Pointing a non-root element straight at its root keeps every path's end.
proof fn lemma_compress_step(p: Seq<u32>, x: int, j: int, k: nat)
    requires
        is_forest(p),
        0 <= x < p.len(),
        !is_root(p, x),
        0 <= j < p.len(),
        is_root(p, parent_iter(p, j, k)),
    ensures
        parent_iter(p.update(x, root_of(p, x) as u32), j, k) == parent_iter(p, j, k),
        is_root(p.update(x, root_of(p, x) as u32), parent_iter(p, j, k)),
    decreases k,
{
    let q = p.update(x, root_of(p, x) as u32);
    lemma_root_of(p, x);
    let r = root_of(p, x);
    lemma_iter_in_range(p, j, k);
    if is_root(p, j) {
        lemma_root_fixed(p, j, k);
        lemma_root_fixed(q, j, k);
    } else if j == x {
        if k == 0 {
        } else {
            assert(q[x] == r);
            lemma_root_fixed(q, r, (k - 1) as nat);
            lemma_root_unique(p, x, k, choose|kk: nat| #[trigger] is_root(p, parent_iter(p, x, kk)));
        }
    } else {
        if k == 0 {
        } else {
            lemma_compress_step(p, x, p[j] as int, (k - 1) as nat);
        }
    }
}

/// Consequences of one compression step for the whole forest.
proof fn lemma_compress_forest(p: Seq<u32>, x: int)
    requires
        is_forest(p),
        0 <= x < p.len(),
        !is_root(p, x),
    ensures
        is_forest(p.update(x, root_of(p, x) as u32)),
        forall|j: int|
            0 <= j < p.len() ==> #[trigger] root_of(p.update(x, root_of(p, x) as u32), j) == root_of(p, j),
{
    let q = p.update(x, root_of(p, x) as u32);
    lemma_root_of(p, x);
    assert forall|j: int| 0 <= j < q.len() implies #[trigger] q[j] < q.len() by {}
    assert forall|j: int| 0 <= j < q.len() implies reaches_root(q, j) by {
        assert(reaches_root(p, j));
        let kj = choose|k: nat| #[trigger] is_root(p, parent_iter(p, j, k));
        lemma_compress_step(p, x, j, kj);
        assert(is_root(q, parent_iter(q, j, kj)));
    }
    assert forall|j: int| 0 <= j < p.len() implies #[trigger] root_of(q, j) == root_of(p, j) by {
        assert(reaches_root(p, j));
        let kj = choose|k: nat| #[trigger] is_root(p, parent_iter(p, j, k));
        lemma_compress_step(p, x, j, kj);
        lemma_root_of(p, j);
        lemma_root_of(q, j);
        assert(is_root(q, parent_iter(q, j, kj)));
    }
}

/// Relinking a root `ri` to an element `v` of another tree leaves paths that end
/// elsewhere unchanged.
proof fn lemma_link_other(p: Seq<u32>, ri: int, v: int, j: int, k: nat)
    requires
        is_forest(p),
        0 <= ri < p.len(),
        is_root(p, ri),
        0 <= v < p.len(),
        0 <= j < p.len(),
        is_root(p, parent_iter(p, j, k)),
        parent_iter(p, j, k) != ri,
    ensures
        parent_iter(p.update(ri, v as u32), j, k) == parent_iter(p, j, k),
        is_root(p.update(ri, v as u32), parent_iter(p, j, k)),
    decreases k,
{
    let q = p.update(ri, v as u32);
    lemma_iter_in_range(p, j, k);
    if is_root(p, j) {
        lemma_root_fixed(p, j, k);
        lemma_root_fixed(q, j, k);
    } else if k > 0 {
        lemma_link_other(p, ri, v, p[j] as int, (k - 1) as nat);
    }
}

/// Relinking a root `ri` to an element `v` of another tree sends the paths that
/// ended at `ri` on to the root of `v`.
proof fn lemma_link_through(p: Seq<u32>, ri: int, v: int, kv: nat, j: int, k: nat)
    requires
        is_forest(p),
        0 <= ri < p.len(),
        is_root(p, ri),
        0 <= v < p.len(),
        v <= u32::MAX,
        is_root(p, parent_iter(p, v, kv)),
        parent_iter(p, v, kv) != ri,
        0 <= j < p.len(),
        parent_iter(p, j, k) == ri,
    ensures
        parent_iter(p.update(ri, v as u32), j, k + 1 + kv) == parent_iter(p, v, kv),
        is_root(p.update(ri, v as u32), parent_iter(p, v, kv)),
    decreases k,
{
    let q = p.update(ri, v as u32);
    let rv = parent_iter(p, v, kv);
    lemma_link_other(p, ri, v, v, kv);
    if j == ri {
        lemma_iter_compose(q, v, kv, k);
        lemma_root_fixed(q, rv, k);
        let n = (k + 1 + kv) as nat;
        assert(q[ri] as int == v);
        assert(parent_iter(q, ri, n) == parent_iter(q, q[ri] as int, (n - 1) as nat));
        assert((n - 1) as nat == (kv + k) as nat);
    } else {
        if k == 0 {
        } else {
            lemma_link_through(p, ri, v, kv, p[j] as int, (k - 1) as nat);
            assert((k + 1 + kv - 1) as nat == ((k - 1) as nat + 1 + kv) as nat);
        }
    }
}

/// Relinking root `ri` to an element `v` of another tree merges the two sets.
pub proof fn lemma_link_forest(p: Seq<u32>, ri: int, v: int)
    requires
        is_forest(p),
        0 <= ri < p.len(),
        is_root(p, ri),
        0 <= v < p.len(),
        v <= u32::MAX,
        root_of(p, v) != ri,
    ensures
        is_forest(p.update(ri, v as u32)),
        forall|j: int|
            0 <= j < p.len() ==> #[trigger] root_of(p.update(ri, v as u32), j) == if root_of(p, j) == ri {
                root_of(p, v)
            } else {
                root_of(p, j)
            },
{
    let q = p.update(ri, v as u32);
    lemma_root_of(p, v);
    assert(reaches_root(p, v));
    let kv = choose|k: nat| #[trigger] is_root(p, parent_iter(p, v, k));
    assert forall|j: int| 0 <= j < q.len() implies #[trigger] q[j] < q.len() by {}
    assert forall|j: int|
        0 <= j < p.len() implies reaches_root(q, j) && #[trigger] root_of(
        q,
        j,
    ) == (if root_of(p, j) == ri {
        root_of(p, v)
    } else {
        root_of(p, j)
    }) by {
        assert(reaches_root(p, j));
        let kj = choose|k: nat| #[trigger] is_root(p, parent_iter(p, j, k));
        lemma_root_of(p, j);
        if parent_iter(p, j, kj) == ri {
            lemma_link_through(p, ri, v, kv, j, kj);
            let kk = (kj + 1 + kv) as nat;
            assert(is_root(q, parent_iter(q, j, kk)));
            lemma_root_unique(q, j, kk, choose|k: nat| #[trigger] is_root(q, parent_iter(q, j, k)));
        } else {
            lemma_link_other(p, ri, v, j, kj);
            assert(is_root(q, parent_iter(q, j, kj)));
            lemma_root_unique(q, j, kj, choose|k: nat| #[trigger] is_root(q, parent_iter(q, j, k)));
        }
    }
    assert forall|j: int| 0 <= j < q.len() implies #[trigger] reaches_root(q, j) by {
        assert(reaches_root(p, j));
        let kj = choose|k: nat| #[trigger] is_root(p, parent_iter(p, j, k));
        if parent_iter(p, j, kj) == ri {
            lemma_link_through(p, ri, v, kv, j, kj);
            assert(is_root(q, parent_iter(q, j, (kj + 1 + kv) as nat)));
        } else {
            lemma_link_other(p, ri, v, j, kj);
            assert(is_root(q, parent_iter(q, j, kj)));
        }
    }
}

/// Appending a new element leaves the paths of the old elements unchanged.
proof fn lemma_push_iter(p: Seq<u32>, v: u32, j: int, k: nat)
    requires
        forall|i: int| 0 <= i < p.len() ==> #[trigger] p[i] < p.len(),
        0 <= j < p.len(),
    ensures
        parent_iter(p.push(v), j, k) == parent_iter(p, j, k),
    decreases k,
{
    if k > 0 {
        lemma_push_iter(p, v, p[j] as int, (k - 1) as nat);
    }
}

/// `x` and `y` are in the same set.
pub open spec fn same_set(p: Seq<u32>, x: int, y: int) -> bool {
    root_of(p, x) == root_of(p, y)
}

/// The root of `x` after the set of `i` is merged into the set of `j`.
pub open spec fn merged_root(p: Seq<u32>, i: int, j: int, x: int) -> int {
    if root_of(p, x) == root_of(p, i) {
        root_of(p, j)
    } else {
        root_of(p, x)
    }
}

/// Law: merging the sets of `i` and `j` puts two elements together exactly when
/// they were together before, or each was with `i` or with `j`.
pub proof fn lemma_union_merges(p: Seq<u32>, q: Seq<u32>, i: int, j: int)
    requires
        is_forest(p),
        0 <= i < p.len(),
        0 <= j < p.len(),
        q.len() == p.len(),
        forall|x: int| 0 <= x < p.len() ==> #[trigger] root_of(q, x) == merged_root(p, i, j, x),
    ensures
        same_set(q, i, j),
        forall|x: int, y: int|
            0 <= x < p.len() && 0 <= y < p.len() ==> (#[trigger] same_set(q, x, y) <==> (same_set(p, x, y) || ((
            same_set(p, x, i) || same_set(p, x, j)) && (same_set(p, y, i) || same_set(p, y, j))))),
{
    assert(root_of(q, i) == merged_root(p, i, j, i));
    assert(root_of(q, j) == merged_root(p, i, j, j));
    assert forall|x: int, y: int| 0 <= x < p.len() && 0 <= y < p.len() implies (#[trigger] same_set(q, x, y) <==> (
    same_set(p, x, y) || ((same_set(p, x, i) || same_set(p, x, j)) && (same_set(p, y, i) || same_set(
        p,
        y,
        j,
    ))))) by {
        assert(root_of(q, x) == merged_root(p, i, j, x));
        assert(root_of(q, y) == merged_root(p, i, j, y));
    }
}

/// A forest of disjoint sets over the ids `0..parents.len()`; each id's parent is
/// stored at its position, and a root is its own parent.
pub struct DisjointSet {
    pub parents: Vec<u32>,
}

impl DisjointSet {
    /// `n` singleton sets.
    pub fn new(n: u32) -> (r: Self)
        ensures
            r.parents@ == Seq::new(n as nat, |i: int| i as u32),
            is_forest(r.parents@),
    {
        let mut parents: Vec<u32> = Vec::new();
        let mut i: u32 = 0;
        while i < n
            invariant
                i <= n,
                parents@ == Seq::new(i as nat, |j: int| j as u32),
            decreases n - i,
        {
            parents.push(i);
            i = i + 1;
        }
        let ghost p = parents@;
        assert forall|j: int| 0 <= j < p.len() implies reaches_root(p, j) by {
            assert(is_root(p, parent_iter(p, j, 0)));
        }
        DisjointSet { parents }
    }

    /// Removes every element.
    pub fn reset(&mut self)
        ensures
            final(self).parents@ == Seq::<u32>::empty(),
    {
        self.parents.clear();
    }

    /// Adds one singleton set whose id is the current number of elements.
    pub fn add_defaulted(&mut self)
        requires
            old(self).parents@.len() < u32::MAX,
        ensures
            final(self).parents@ == old(self).parents@.push(old(self).parents@.len() as u32),
            is_forest(old(self).parents@) ==> is_forest(final(self).parents@) && root_of(
                final(self).parents@,
                old(self).parents@.len() as int,
            ) == old(self).parents@.len() && forall|j: int|
                0 <= j < old(self).parents@.len() ==> #[trigger] root_of(final(self).parents@, j) == root_of(
                    old(self).parents@,
                    j,
                ),
    {
        let id = self.parents.len() as u32;
        self.parents.push(id);
        proof {
            let p = old(self).parents@;
            let q = self.parents@;
            if is_forest(p) {
                assert forall|j: int| 0 <= j < q.len() implies #[trigger] q[j] < q.len() by {}
                assert forall|j: int|
                    0 <= j < q.len() implies reaches_root(q, j) by {
                    if j < p.len() {
                        assert(reaches_root(p, j));
                        let kj = choose|k: nat| #[trigger] is_root(p, parent_iter(p, j, k));
                        lemma_push_iter(p, id, j, kj);
                        lemma_iter_in_range(p, j, kj);
                        assert(is_root(q, parent_iter(q, j, kj)));
                    } else {
                        assert(is_root(q, parent_iter(q, j, 0)));
                    }
                }
                lemma_root_of_root(q, p.len() as int);
                assert forall|j: int| 0 <= j < p.len() implies #[trigger] root_of(q, j) == root_of(p, j) by {
                    assert(reaches_root(p, j));
                    let kj = choose|k: nat| #[trigger] is_root(p, parent_iter(p, j, k));
                    lemma_push_iter(p, id, j, kj);
                    lemma_iter_in_range(p, j, kj);
                    lemma_root_of(p, j);
                    lemma_root_of(q, j);
                    assert(is_root(q, parent_iter(q, j, kj)));
                }
            }
        }
    }

    /// The root of `i`'s set. Every element on the path from `i` is pointed
    /// straight at that root; no element changes sets.
    pub fn find(&mut self, i: u32) -> (r: u32)
        requires
            is_forest(old(self).parents@),
            i < old(self).parents@.len(),
        ensures
            r == root_of(old(self).parents@, i as int),
            is_forest(final(self).parents@),
            final(self).parents@.len() == old(self).parents@.len(),
            forall|j: int|
                0 <= j < old(self).parents@.len() ==> #[trigger] root_of(final(self).parents@, j) == root_of(
                    old(self).parents@,
                    j,
                ),
            forall|j: int|
                0 <= j < old(self).parents@.len() ==> #[trigger] final(self).parents@[j] == old(self).parents@[j]
                    || final(self).parents@[j] == r,
            final(self).parents@[i as int] == r,
    {
        let ghost p0 = self.parents@;
        let mut root = i;
        let ghost mut k: nat = choose|k: nat| #[trigger] is_root(p0, parent_iter(p0, i as int, k));
        proof {
            lemma_root_of(p0, i as int);
        }
        while self.parents[root as usize] != root
            invariant
                self.parents@ == p0,
                is_forest(p0),
                root < p0.len(),
                i < p0.len(),
                is_root(p0, parent_iter(p0, root as int, k)),
                root_of(p0, root as int) == root_of(p0, i as int),
            decreases k,
        {
            proof {
                lemma_root_of_parent(p0, root as int);
            }
            root = self.parents[root as usize];
            proof {
                k = (k - 1) as nat;
            }
        }
        proof {
            lemma_root_of_root(p0, root as int);
        }
        let mut cur = i;
        let ghost mut k2: nat = choose|k: nat| #[trigger] is_root(p0, parent_iter(p0, i as int, k));
        while self.parents[cur as usize] != root
            invariant
                self.parents@.len() == p0.len(),
                is_forest(self.parents@),
                cur < p0.len(),
                i < p0.len(),
                root < p0.len(),
                root == root_of(p0, i as int),
                root_of(self.parents@, cur as int) == root,
                is_root(self.parents@, parent_iter(self.parents@, cur as int, k2)),
                forall|j: int|
                    0 <= j < p0.len() ==> #[trigger] root_of(self.parents@, j) == root_of(p0, j),
                forall|j: int|
                    0 <= j < p0.len() ==> #[trigger] self.parents@[j] == p0[j] || self.parents@[j] == root,
                cur == i || self.parents@[i as int] == root,
            decreases k2,
        {
            let ghost p = self.parents@;
            let next = self.parents[cur as usize];
            proof {
                lemma_root_of(p, cur as int);
                if is_root(p, cur as int) {
                    lemma_root_of_root(p, cur as int);
                }
                assert(!is_root(p, cur as int));
                lemma_root_of_parent(p, cur as int);
                lemma_compress_forest(p, cur as int);
                lemma_compress_step(p, cur as int, next as int, (k2 - 1) as nat);
            }
            self.parents[cur as usize] = root;
            proof {
                assert(self.parents@ == p.update(cur as int, root_of(p, cur as int) as u32));
                assert(root_of(p, cur as int) == root);
                if cur == i {
                    assert(self.parents@[cur as int] == root);
                } else {
                    assert(p[i as int] == root);
                    assert(self.parents@[i as int] == p[i as int]);
                }
                k2 = (k2 - 1) as nat;
            }
            cur = next;
        }
        proof {
            if i == root {
                lemma_root_of_root(p0, i as int);
            }
        }
        root
    }

    /// Merges the sets of `i` and `j`: the root of `i`'s set is linked under the root of `j`'s.
    pub fn union(&mut self, i: u32, j: u32)
        requires
            is_forest(old(self).parents@),
            i < old(self).parents@.len(),
            j < old(self).parents@.len(),
        ensures
            is_forest(final(self).parents@),
            final(self).parents@.len() == old(self).parents@.len(),
            forall|x: int|
                0 <= x < old(self).parents@.len() ==> #[trigger] root_of(final(self).parents@, x) == if root_of(
                    old(self).parents@,
                    x,
                ) == root_of(old(self).parents@, i as int) {
                    root_of(old(self).parents@, j as int)
                } else {
                    root_of(old(self).parents@, x)
                },
            root_of(old(self).parents@, i as int) != root_of(old(self).parents@, j as int) ==> final(self).parents@[root_of(old(self).parents@, i as int)]
                == root_of(old(self).parents@, j as int),
    {
        let root_i = self.find(i);
        let root_j = self.find(j);
        proof {
            let p = self.parents@;
            lemma_root_of(p, i as int);
            lemma_root_of(p, j as int);
        }
        if root_i != root_j {
            let ghost p = self.parents@;
            proof {
                lemma_root_of_root(p, root_j as int);
                lemma_link_forest(p, root_i as int, root_j as int);
            }
            self.parents[root_i as usize] = root_j;
        }
    }

    /// Sequential merge: the root of `i`'s set is pointed directly at `j` (not at
    /// `j`'s root). When `j` lies in another set, or is `i`'s root itself, the set
    /// of `i` joins the set of `j`.
    pub fn union_sequential(&mut self, i: u32, j: u32)
        requires
            is_forest(old(self).parents@),
            i < old(self).parents@.len(),
            j < old(self).parents@.len(),
        ensures
            final(self).parents@.len() == old(self).parents@.len(),
            final(self).parents@[root_of(old(self).parents@, i as int)] == j,
            forall|x: int|
                0 <= x < old(self).parents@.len() && x != root_of(old(self).parents@, i as int)
                    ==> #[trigger] final(self).parents@[x] == old(self).parents@[x] || final(self).parents@[x]
                    == root_of(old(self).parents@, i as int),
            root_of(old(self).parents@, j as int) != root_of(old(self).parents@, i as int) || j as int == root_of(
                old(self).parents@,
                i as int,
            ) ==> {
                &&& is_forest(final(self).parents@)
                &&& forall|x: int|
                    0 <= x < old(self).parents@.len() ==> #[trigger] root_of(final(self).parents@, x) == if root_of(
                        old(self).parents@,
                        x,
                    ) == root_of(old(self).parents@, i as int) {
                        root_of(old(self).parents@, j as int)
                    } else {
                        root_of(old(self).parents@, x)
                    }
            },
    {
        let root_i = self.find(i);
        let ghost p = self.parents@;
        proof {
            lemma_root_of(p, i as int);
            lemma_root_of(p, j as int);
        }
        self.parents[root_i as usize] = j;
        proof {
            let p0 = old(self).parents@;
            if root_of(p0, j as int) != root_of(p0, i as int) {
                lemma_link_forest(p, root_i as int, j as int);
            } else if j == root_i {
                assert(self.parents@ =~= p);
                assert forall|x: int| 0 <= x < p0.len() implies #[trigger] root_of(self.parents@, x) == if root_of(
                    p0,
                    x,
                ) == root_of(p0, i as int) {
                    root_of(p0, j as int)
                } else {
                    root_of(p0, x)
                } by {
                    assert(root_of(p, x) == root_of(p0, x));
                }
            }
        }
    }
}

} // verus!
