use vstd::prelude::*;

verus! {

/// Rank-based union-find over integer identifiers `0..n`, with full path
/// compression on every `find`.
///
/// The ghost field `cls` maps every identifier to the representative of its
/// equivalence class; it is the abstraction the contracts speak of. `parent`
/// and `rank` are the concrete forest, kept consistent with `cls` by `wf`.
pub struct UnionFind {
    parent: Vec<usize>,
    rank: Vec<usize>,
    cls: Ghost<Seq<usize>>,
}

impl UnionFind {
    /// Number of identifiers managed by the store.
    pub closed spec fn n(self) -> nat {
        self.parent@.len()
    }

    /// The representative of identifier `i`'s equivalence class.
    pub closed spec fn class_of(self, i: int) -> usize {
        self.cls@[i]
    }

    /// The set of current representatives.
    spec fn roots(self) -> Set<int> {
        Set::new(|k: int| 0 <= k < self.n() && self.cls@[k] == k)
    }

    /// Internal consistency: every identifier's parent stays inside its
    /// class, representatives are exactly the roots of the forest, ranks
    /// grow strictly along parent links, and no rank can exceed what the
    /// number of remaining classes leaves room for.
    pub closed spec fn wf(self) -> bool {
        let n = self.n() as int;
        &&& self.rank@.len() == n
        &&& self.cls@.len() == n
        &&& forall|i: int| 0 <= i < n ==> (#[trigger] self.parent@[i]) < n
        &&& forall|i: int| 0 <= i < n ==> (#[trigger] self.cls@[i]) < n
        &&& forall|i: int| 0 <= i < n ==> self.cls@[#[trigger] self.parent@[i] as int] == self.cls@[i]
        &&& forall|i: int| 0 <= i < n ==> ((#[trigger] self.parent@[i]) == i <==> self.cls@[i] == i)
        &&& forall|i: int| 0 <= i < n ==> (#[trigger] self.cls@[self.cls@[i] as int]) == self.cls@[i]
        &&& forall|i: int| 0 <= i < n && self.parent@[i] != i ==> self.rank@[i] < (#[trigger] self.rank@[self.parent@[i] as int])
        &&& forall|i: int| 0 <= i < n ==> self.rank@[i] <= (#[trigger] self.rank@[self.cls@[i] as int])
        &&& forall|i: int| 0 <= i < n ==> (#[trigger] self.rank@[i]) + self.roots().len() <= n
    }

    /// The set of representatives is finite and no larger than `n`.
    proof fn lemma_roots_finite(self)
        ensures
            self.roots().finite(),
            self.roots().len() <= self.n(),
    {
        let n = self.n() as int;
        vstd::set_lib::lemma_int_range(0, n);
        let range = vstd::set_lib::set_int_range(0, n);
        assert(self.roots() <= range);
        vstd::set_lib::lemma_len_subset(self.roots(), range);
    }


    /// Representatives are valid identifiers.
    pub proof fn lemma_class_bounds(self)
        requires
            self.wf(),
        ensures
            forall|i: int| 0 <= i < self.n() ==> (#[trigger] self.class_of(i)) < self.n(),
    {
    }

    /// Creates `n` singleton classes: each identifier is its own parent and
    /// representative, with rank zero.
    pub fn new(n: usize) -> (r: UnionFind)
        ensures
            r.wf(),
            r.n() == n,
            forall|i: int| 0 <= i < n ==> r.class_of(i) == i,
    {
        let mut parent: Vec<usize> = Vec::new();
        let mut rank: Vec<usize> = Vec::new();
        let mut i: usize = 0;
        while i < n
            invariant
                i <= n,
                parent@.len() == i as int,
                rank@.len() == i as int,
                forall|j: int| 0 <= j < i ==> parent@[j] == j,
                forall|j: int| 0 <= j < i ==> rank@[j] == 0,
            decreases n - i,
        {
            parent.push(i);
            rank.push(0);
            i = i + 1;
        }
        let r = UnionFind { parent, rank, cls: Ghost(Seq::new(n as nat, |k: int| k as usize)) };
        proof {
            r.lemma_roots_finite();
            assert(r.roots() =~= vstd::set_lib::set_int_range(0, n as int));
            vstd::set_lib::lemma_int_range(0, n as int);
        }
        r
    }

    /// Adds one fresh singleton class and returns its identifier.
    pub fn fresh(&mut self) -> (id: usize)
        requires
            old(self).wf(),
        ensures
            final(self).wf(),
            id == old(self).n(),
            final(self).n() == old(self).n() + 1,
            forall|i: int| 0 <= i < old(self).n() ==> final(self).class_of(i) == old(self).class_of(i),
            final(self).class_of(id as int) == id,
    {
        let id = self.parent.len();
        self.parent.push(id);
        self.rank.push(0);
        proof {
            self.cls@ = self.cls@.push(id);
        }
        proof {
            let n = self.n() as int;
            assert(self.roots() =~= old(self).roots().insert(id as int));
            old(self).lemma_roots_finite();
            assert(!old(self).roots().contains(id as int));
            assert(self.roots().len() == old(self).roots().len() + 1);
        }
        id
    }

    /// Returns the representative of `i`'s class, repointing every
    /// identifier visited on the way to the root directly at the root
    /// (full path compression). The classes themselves do not change.
    pub fn find(&mut self, i: usize) -> (r: usize)
        requires
            old(self).wf(),
            i < old(self).n(),
        ensures
            final(self).wf(),
            final(self).n() == old(self).n(),
            forall|k: int| 0 <= k < old(self).n() ==> final(self).class_of(k) == old(self).class_of(k),
            r == old(self).class_of(i as int),
            r < old(self).n(),
            old(self).class_of(r as int) == r,
    {
        // First pass: locate the root.
        let mut j = i;
        while self.parent[j] != j
            invariant
                self.wf(),
                self == old(self),
                j < self.n(),
                self.cls@[j as int] == self.cls@[i as int],
            decreases self.n() - self.rank@[j as int],
        {
            j = self.parent[j];
        }
        let root = j;
        proof {
            assert(self.cls@[root as int] == root);
            assert(root == self.class_of(i as int));
        }
        // Second pass: repoint everything on the path directly at the root.
        let mut k = i;
        while k != root
            invariant
                self.wf(),
                self.n() == old(self).n(),
                self.cls@ == old(self).cls@,
                self.rank@ == old(self).rank@,
                k < self.n(),
                self.cls@[k as int] == root,
                root < self.n(),
                self.cls@[root as int] == root,
            decreases self.n() - self.rank@[k as int],
        {
            let next = self.parent[k];
            proof {
                assert(self.parent@[k as int] != k);
                assert(self.rank@[k as int] < self.rank@[next as int]);
            }
            self.parent.set(k, root);
            k = next;
        }
        root
    }

    /// Re-establishes `wf` after root `lo` has been attached under root
    /// `hi`: `fin` differs from `mid` in exactly that parent link, a
    /// possible rank bump at `hi`, and the merged class map.
    proof fn lemma_link(mid: UnionFind, fin: UnionFind, lo: usize, hi: usize, tie: bool)
        requires
            mid.wf(),
            lo < mid.n(),
            hi < mid.n(),
            lo != hi,
            mid.cls@[lo as int] == lo,
            mid.cls@[hi as int] == hi,
            !tie ==> mid.rank@[lo as int] < mid.rank@[hi as int],
            tie ==> mid.rank@[lo as int] == mid.rank@[hi as int],
            mid.rank@[hi as int] + 1 <= usize::MAX,
            fin.parent@ == mid.parent@.update(lo as int, hi),
            fin.rank@ == (if tie {
                mid.rank@.update(hi as int, (mid.rank@[hi as int] + 1) as usize)
            } else {
                mid.rank@
            }),
            fin.cls@ == Seq::new(
                mid.cls@.len(),
                |k: int| if mid.cls@[k] == lo { hi } else { mid.cls@[k] },
            ),
        ensures
            fin.wf(),
            fin.n() == mid.n(),
    {
        let n = mid.n() as int;
        mid.lemma_roots_finite();
        assert(fin.n() == n);
        assert(fin.roots() =~= mid.roots().remove(lo as int));
        assert(mid.roots().contains(lo as int));
        assert(fin.roots().len() == mid.roots().len() - 1);
        assert forall|k: int| 0 <= k < n implies (#[trigger] fin.parent@[k]) < n by {
            assert(mid.parent@[k] < n);
        }
        assert forall|k: int| 0 <= k < n implies (#[trigger] fin.cls@[k]) < n by {
            assert(mid.cls@[k] < n);
        }
        assert forall|k: int| 0 <= k < n implies fin.cls@[#[trigger] fin.parent@[k] as int]
            == fin.cls@[k] by {
            assert(mid.cls@[mid.parent@[k] as int] == mid.cls@[k]);
            assert(mid.parent@[k] < n);
        }
        assert forall|k: int| 0 <= k < n implies ((#[trigger] fin.parent@[k]) == k <==> fin.cls@[k]
            == k) by {
            assert(mid.parent@[k] == k <==> mid.cls@[k] == k);
            if k != lo && mid.cls@[k] == lo {
                assert(mid.cls@[k] != k);
            }
        }
        assert forall|k: int| 0 <= k < n implies fin.cls@[#[trigger] fin.cls@[k] as int]
            == fin.cls@[k] by {
            assert(mid.cls@[mid.cls@[k] as int] == mid.cls@[k]);
        }
        assert forall|k: int| 0 <= k < n && fin.parent@[k] != k implies (#[trigger] fin.rank@[k])
            < fin.rank@[fin.parent@[k] as int] by {
            if k == lo {
                assert(fin.parent@[k] == hi);
            } else {
                assert(mid.parent@[k] != k);
                assert(mid.rank@[k] < mid.rank@[mid.parent@[k] as int]);
                assert(mid.parent@[k] < n);
                if k == hi {
                    assert(mid.parent@[hi as int] == hi);
                }
            }
        }
        assert forall|k: int| 0 <= k < n implies (#[trigger] fin.rank@[k]) <= fin.rank@[
            fin.cls@[k] as int] by {
            assert(mid.rank@[k] <= mid.rank@[mid.cls@[k] as int]);
            if mid.cls@[k] == lo {
                assert(mid.rank@[lo as int] <= mid.rank@[hi as int]);
            }
        }
        assert forall|k: int| 0 <= k < n implies (#[trigger] fin.rank@[k]) + fin.roots().len()
            <= n by {
            assert(mid.rank@[k] + mid.roots().len() <= n);
            assert(mid.rank@[hi as int] + mid.roots().len() <= n);
        }
    }

    /// Two distinct representatives leave every rank two below `n`.
    proof fn lemma_two_roots(self, i: usize, j: usize)
        requires
            self.wf(),
            i < self.n(),
            j < self.n(),
            i != j,
            self.cls@[i as int] == i,
            self.cls@[j as int] == j,
        ensures
            forall|k: int| 0 <= k < self.n() ==> (#[trigger] self.rank@[k]) + 2 <= self.n(),
    {
        self.lemma_roots_finite();
        assert(self.roots().contains(i as int));
        assert(self.roots().contains(j as int));
        let smaller = self.roots().remove(i as int);
        assert(smaller.contains(j as int));
        if smaller.len() == 0 {
            smaller.lemma_len0_is_empty();
        }
        assert(self.roots().len() >= 2);
    }

    /// Attaches root `lo` under root `hi`, bumping `hi`'s rank on a tie.
    fn link(&mut self, lo: usize, hi: usize)
        requires
            old(self).wf(),
            lo < old(self).n(),
            hi < old(self).n(),
            lo != hi,
            old(self).cls@[lo as int] == lo,
            old(self).cls@[hi as int] == hi,
            old(self).rank@[lo as int] <= old(self).rank@[hi as int],
        ensures
            final(self).wf(),
            final(self).n() == old(self).n(),
            final(self).cls@ == Seq::new(
                old(self).cls@.len(),
                |k: int| if old(self).cls@[k] == lo { hi } else { old(self).cls@[k] },
            ),
    {
        let n = self.parent.len();
        proof {
            old(self).lemma_two_roots(lo, hi);
            assert(old(self).rank@[hi as int] + 2 <= n);
        }
        let tie = self.rank[lo] == self.rank[hi];
        self.parent.set(lo, hi);
        if tie {
            let bumped = self.rank[hi] + 1;
            self.rank.set(hi, bumped);
        }
        proof {
            self.cls@ = Seq::new(
                old(self).cls@.len(),
                |k: int| if old(self).cls@[k] == lo { hi } else { old(self).cls@[k] },
            );
            Self::lemma_link(*old(self), *self, lo, hi, tie);
        }
    }

    /// Merges the classes of `p` and `q`. The lower-rank root is attached
    /// under the higher-rank one; on a tie the choice is arbitrary and the
    /// surviving root's rank grows by one. Afterwards `p` and `q` share one
    /// representative, which is one of their two old representatives, and
    /// no other class is touched.
    #[verifier::rlimit(50)]
    pub fn unite(&mut self, p: usize, q: usize)
        requires
            old(self).wf(),
            p < old(self).n(),
            q < old(self).n(),
        ensures
            final(self).wf(),
            final(self).n() == old(self).n(),
            final(self).class_of(p as int) == final(self).class_of(q as int),
            final(self).class_of(p as int) == old(self).class_of(p as int) || final(self).class_of(p as int)
                == old(self).class_of(q as int),
            forall|k: int|
                0 <= k < final(self).n() && (old(self).class_of(k) == old(self).class_of(p as int)
                    || old(self).class_of(k) == old(self).class_of(q as int))
                    ==> #[trigger] final(self).class_of(k) == final(self).class_of(p as int),
            forall|k: int|
                0 <= k < final(self).n() && old(self).class_of(k) != old(self).class_of(p as int)
                    && old(self).class_of(k) != old(self).class_of(q as int)
                    ==> #[trigger] final(self).class_of(k) == old(self).class_of(k),
            forall|k: int, l: int|
                0 <= k < final(self).n() && 0 <= l < final(self).n()
                    ==> ((#[trigger] final(self).class_of(k) == #[trigger] final(self).class_of(l))
                    <==> (old(self).class_of(k) == old(self).class_of(l))
                        || ((old(self).class_of(k) == old(self).class_of(p as int) || old(self).class_of(k) == old(self).class_of(q as int))
                            && (old(self).class_of(l) == old(self).class_of(p as int) || old(self).class_of(l) == old(self).class_of(q as int)))),
    {
        let i = self.find(p);
        let j = self.find(q);
        if i == j {
            return;
        }
        let ghost mid = *self;
        // append the smaller tree below the bigger tree's root
        if self.rank[i] < self.rank[j] {
            self.link(i, j);
        } else {
            self.link(j, i);
        }
        proof {
            assert forall|k: int| 0 <= k < mid.n() implies #[trigger] mid.class_of(k)
                == old(self).class_of(k) by {}
            assert(i == mid.class_of(p as int) && j == mid.class_of(q as int));
            let hi = self.cls@[p as int];
            assert(hi == i || hi == j);
            assert forall|k: int|
                0 <= k < self.n() && (old(self).class_of(k) == old(self).class_of(p as int)
                    || old(self).class_of(k) == old(self).class_of(q as int))
                    implies #[trigger] self.class_of(k) == self.class_of(p as int) by {
                assert(mid.cls@[k] == i || mid.cls@[k] == j);
            }
            assert forall|k: int|
                0 <= k < self.n() && old(self).class_of(k) != old(self).class_of(p as int)
                    && old(self).class_of(k) != old(self).class_of(q as int)
                    implies #[trigger] self.class_of(k) == old(self).class_of(k) by {
                assert(mid.cls@[k] != i && mid.cls@[k] != j);
            }
        }
    }
}


/// `k` and `l` are connected — directly or transitively — by the united
/// pairs: the same class after replaying `pairs` over `n` singletons.
pub open spec fn linked(pairs: Seq<(usize, usize)>, k: int, l: int) -> bool
    decreases pairs.len(),
{
    if pairs.len() == 0 {
        k == l
    } else {
        let rest = pairs.drop_last();
        let p = pairs.last().0 as int;
        let q = pairs.last().1 as int;
        linked(rest, k, l) || ((linked(rest, k, p) || linked(rest, k, q)) && (linked(rest, l, p)
            || linked(rest, l, q)))
    }
}

/// The store's classes are exactly the connected components of `pairs`.
pub open spec fn tracks(uf: UnionFind, n: nat, pairs: Seq<(usize, usize)>) -> bool {
    &&& uf.wf()
    &&& uf.n() == n
    &&& forall|i: int| 0 <= i < pairs.len() ==> (#[trigger] pairs[i]).0 < n && pairs[i].1 < n
    &&& forall|k: int, l: int|
        0 <= k < n && 0 <= l < n ==> ((#[trigger] uf.class_of(k) == #[trigger] uf.class_of(l))
            <==> linked(pairs, k, l))
}

/// A fresh store tracks the empty union sequence: every identifier is
/// connected only to itself.
pub proof fn lemma_new_tracks(uf: UnionFind, n: nat)
    requires
        uf.wf(),
        uf.n() == n,
        forall|i: int| 0 <= i < n ==> #[trigger] uf.class_of(i) == i,
    ensures
        tracks(uf, n, Seq::<(usize, usize)>::empty()),
{
}

/// One `unite` keeps the store tracking the union sequence: together with
/// `lemma_new_tracks` and `unite`'s contract this gives, by induction over
/// any sequence of `unite` calls on a fresh store, that `find(p) == find(q)`
/// afterwards exactly when `p` and `q` were connected, directly or
/// transitively, by the pairs united so far.
pub proof fn lemma_unite_tracks(
    pre: UnionFind,
    post: UnionFind,
    n: nat,
    pairs: Seq<(usize, usize)>,
    p: usize,
    q: usize,
)
    requires
        tracks(pre, n, pairs),
        p < n,
        q < n,
        post.wf(),
        post.n() == n,
        forall|k: int, l: int|
            0 <= k < n && 0 <= l < n ==> ((#[trigger] post.class_of(k) == #[trigger] post.class_of(
                l,
            )) <==> (pre.class_of(k) == pre.class_of(l)) || ((pre.class_of(k) == pre.class_of(
                p as int,
            ) || pre.class_of(k) == pre.class_of(q as int)) && (pre.class_of(l) == pre.class_of(
                p as int,
            ) || pre.class_of(l) == pre.class_of(q as int)))),
    ensures
        tracks(post, n, pairs.push((p, q))),
{
    let ps = pairs.push((p, q));
    assert(ps.drop_last() =~= pairs);
    assert(ps.last() == (p, q));
    assert forall|k: int, l: int| 0 <= k < n && 0 <= l < n implies ((#[trigger] post.class_of(k)
        == #[trigger] post.class_of(l)) <==> linked(ps, k, l)) by {
        assert(linked(pairs, k, l) <==> pre.class_of(k) == pre.class_of(l));
        assert(linked(pairs, k, p as int) <==> pre.class_of(k) == pre.class_of(p as int));
        assert(linked(pairs, k, q as int) <==> pre.class_of(k) == pre.class_of(q as int));
        assert(linked(pairs, l, p as int) <==> pre.class_of(l) == pre.class_of(p as int));
        assert(linked(pairs, l, q as int) <==> pre.class_of(l) == pre.class_of(q as int));
    }
}

} // verus!

