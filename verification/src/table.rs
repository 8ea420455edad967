use vstd::prelude::*;
use crate::disjoint_set::UnionFind;
use crate::term::{Term, Symbol, apply, sym_eq};

verus! {

/// Links disjoint-set class identifiers with terms: every subterm that
/// takes part in a unification session is interned once, and merged classes
/// record a canonical representative term. This lets the unification
/// algorithm ask "were these two subterms already proven equal?" in
/// near-constant time.
pub struct SymbolTable {
    syms: Vec<Symbol>,
    canon: Vec<Symbol>,
    uf: UnionFind,
}

impl SymbolTable {
    /// Number of interned terms.
    pub closed spec fn n(self) -> nat {
        self.uf.n()
    }

    /// The term interned under identifier `i`.
    pub closed spec fn sym_at(self, i: int) -> Term {
        self.syms@[i]@
    }

    /// Identifiers `i` and `j` are in one equivalence class.
    pub closed spec fn same_class(self, i: int, j: int) -> bool {
        self.uf.class_of(i) == self.uf.class_of(j)
    }

    /// The canonical term recorded for `i`'s class.
    pub closed spec fn rep_term(self, i: int) -> Term {
        self.canon@[self.uf.class_of(i) as int]@
    }

    pub closed spec fn wf(self) -> bool {
        &&& self.uf.wf()
        &&& self.syms@.len() == self.n()
        &&& self.canon@.len() == self.n()
    }

    /// What the table claims relative to a substitution store `m`: terms in
    /// one class are equal under `m`, and each class's canonical term is
    /// equal (under `m`) to every term of the class.
    pub open spec fn consistent(self, m: Map<Seq<char>, Term>) -> bool {
        &&& forall|i: int, j: int|
            0 <= i < self.n() && 0 <= j < self.n() && self.same_class(i, j) ==> apply(
                m,
                #[trigger] self.sym_at(i),
            ) == apply(m, #[trigger] self.sym_at(j))
        &&& forall|i: int|
            0 <= i < self.n() ==> apply(m, #[trigger] self.rep_term(i)) == apply(
                m,
                self.sym_at(i),
            )
    }

    /// An empty session table.
    pub fn new() -> (r: SymbolTable)
        ensures
            r.wf(),
            r.n() == 0,
            forall|m: Map<Seq<char>, Term>| r.consistent(m),
    {
        SymbolTable { syms: Vec::new(), canon: Vec::new(), uf: UnionFind::new(0) }
    }

    /// Returns the identifier already held by a structurally equal term, or
    /// interns the term as a fresh singleton class (with itself as the
    /// class's canonical term).
    #[verifier::loop_isolation(false)]
    pub fn intern(&mut self, t: &Symbol, m: Ghost<Map<Seq<char>, Term>>) -> (id: usize)
        requires
            old(self).wf(),
            old(self).consistent(m@),
        ensures
            final(self).wf(),
            final(self).consistent(m@),
            old(self).n() <= final(self).n(),
            id < final(self).n(),
            final(self).sym_at(id as int) == t@,
            forall|i: int| 0 <= i < id ==> final(self).sym_at(i) != t@,
            forall|i: int| 0 <= i < old(self).n() ==> final(self).sym_at(i) == old(self).sym_at(i),
            forall|i: int, j: int|
                0 <= i < old(self).n() && 0 <= j < old(self).n() ==> (final(self).same_class(i, j)
                    <==> old(self).same_class(i, j)),
    {
        let mut i: usize = 0;
        let len = self.syms.len();
        while i < len
            invariant
                i <= len,
                forall|j: int| 0 <= j < i ==> self.sym_at(j) != t@,
            decreases len - i,
        {
            if sym_eq(&self.syms[i], t) {
                return i;
            }
            i = i + 1;
        }
        let s1 = t.duplicate();
        let s2 = t.duplicate();
        self.syms.push(s1);
        self.canon.push(s2);
        let id = self.uf.fresh();
        proof {
            old(self).uf.lemma_class_bounds();
            self.uf.lemma_class_bounds();
            assert(id == len);
            assert forall|i2: int| 0 <= i2 < id implies self.sym_at(i2) != t@ by {
                assert(old(self).sym_at(i2) != t@);
                assert(self.syms@[i2] == old(self).syms@[i2]);
            }
            assert forall|i: int, j: int|
                0 <= i < self.n() && 0 <= j < self.n() && self.same_class(i, j) implies apply(
                m@,
                #[trigger] self.sym_at(i),
            ) == apply(m@, #[trigger] self.sym_at(j)) by {
                if i < id && j < id {
                    assert(old(self).same_class(i, j));
                    assert(apply(m@, old(self).sym_at(i)) == apply(m@, old(self).sym_at(j)));
                } else if i == id && j != id {
                    assert(self.uf.class_of(j) == old(self).uf.class_of(j));
                    assert(old(self).uf.class_of(j) < old(self).uf.n());
                    assert(false);
                } else if j == id && i != id {
                    assert(self.uf.class_of(i) == old(self).uf.class_of(i));
                    assert(old(self).uf.class_of(i) < old(self).uf.n());
                    assert(false);
                }
            }
            assert forall|i: int| 0 <= i < self.n() implies apply(
                m@,
                #[trigger] self.rep_term(i),
            ) == apply(m@, self.sym_at(i)) by {
                if i < id {
                    assert(self.uf.class_of(i) == old(self).uf.class_of(i));
                    assert(old(self).uf.class_of(i) < old(self).uf.n());
                    assert(self.rep_term(i) == old(self).rep_term(i));
                    assert(apply(m@, old(self).rep_term(i)) == apply(m@, old(self).sym_at(i)));
                } else {
                    assert(self.uf.class_of(id as int) == id);
                }
            }
        }
        id
    }

    /// Whether two interned identifiers are already known to stand for
    /// equal terms (path-compressing on the way; classes do not change).
    pub fn same_class_of(&mut self, i: usize, j: usize) -> (r: bool)
        requires
            old(self).wf(),
            i < old(self).n(),
            j < old(self).n(),
        ensures
            final(self).wf(),
            final(self).n() == old(self).n(),
            r == old(self).same_class(i as int, j as int),
            i == j ==> r,
            forall|a: int| 0 <= a < old(self).n() ==> final(self).sym_at(a) == old(self).sym_at(a),
            forall|a: int| 0 <= a < old(self).n() ==> final(self).rep_term(a) == old(
                self,
            ).rep_term(a),
            forall|a: int, b: int|
                0 <= a < old(self).n() && 0 <= b < old(self).n() ==> (final(self).same_class(a, b)
                    <==> old(self).same_class(a, b)),
            forall|m: Map<Seq<char>, Term>| old(self).consistent(m) ==> final(self).consistent(m),
    {
        let fi = self.uf.find(i);
        let fj = self.uf.find(j);
        proof {
            assert forall|m: Map<Seq<char>, Term>| old(self).consistent(m) implies self.consistent(
                m,
            ) by {
                assert forall|i2: int, j2: int|
                    0 <= i2 < self.n() && 0 <= j2 < self.n() && self.same_class(i2, j2) implies apply(
                    m,
                    #[trigger] self.sym_at(i2),
                ) == apply(m, #[trigger] self.sym_at(j2)) by {
                    assert(old(self).same_class(i2, j2));
                    assert(apply(m, old(self).sym_at(i2)) == apply(m, old(self).sym_at(j2)));
                }
                assert forall|i2: int| 0 <= i2 < self.n() implies apply(
                    m,
                    #[trigger] self.rep_term(i2),
                ) == apply(m, self.sym_at(i2)) by {
                    assert(apply(m, old(self).rep_term(i2)) == apply(m, old(self).sym_at(i2)));
                }
            }
        }
        fi == fj
    }

    /// The term currently canonical for `id`'s equivalence class.
    pub fn representative_term(&mut self, id: usize) -> (r: Symbol)
        requires
            old(self).wf(),
            id < old(self).n(),
        ensures
            final(self).wf(),
            final(self).n() == old(self).n(),
            r@ == old(self).rep_term(id as int),
            forall|a: int| 0 <= a < old(self).n() ==> final(self).sym_at(a) == old(self).sym_at(a),
            forall|a: int| 0 <= a < old(self).n() ==> final(self).rep_term(a) == old(
                self,
            ).rep_term(a),
            forall|a: int, b: int|
                0 <= a < old(self).n() && 0 <= b < old(self).n() ==> (final(self).same_class(a, b)
                    <==> old(self).same_class(a, b)),
            forall|m: Map<Seq<char>, Term>| old(self).consistent(m) ==> final(self).consistent(m),
    {
        let root = self.uf.find(id);
        proof {
            assert forall|m: Map<Seq<char>, Term>| old(self).consistent(m) implies self.consistent(
                m,
            ) by {
                assert forall|i2: int, j2: int|
                    0 <= i2 < self.n() && 0 <= j2 < self.n() && self.same_class(i2, j2) implies apply(
                    m,
                    #[trigger] self.sym_at(i2),
                ) == apply(m, #[trigger] self.sym_at(j2)) by {
                    assert(old(self).same_class(i2, j2));
                    assert(apply(m, old(self).sym_at(i2)) == apply(m, old(self).sym_at(j2)));
                }
                assert forall|i2: int| 0 <= i2 < self.n() implies apply(
                    m,
                    #[trigger] self.rep_term(i2),
                ) == apply(m, self.sym_at(i2)) by {
                    assert(apply(m, old(self).rep_term(i2)) == apply(m, old(self).sym_at(i2)));
                }
            }
        }
        self.canon[root].duplicate()
    }

    /// Unites the classes of `a` and `b` and records `canonical` as the
    /// resulting class's representative term. Only sound when the two
    /// classes' terms are already equal under the store `m`, with
    /// `canonical` equal to them too.
    pub fn merge(
        &mut self,
        a: usize,
        b: usize,
        canonical: &Symbol,
        m: Ghost<Map<Seq<char>, Term>>,
    )
        requires
            old(self).wf(),
            old(self).consistent(m@),
            a < old(self).n(),
            b < old(self).n(),
            apply(m@, old(self).sym_at(a as int)) == apply(m@, old(self).sym_at(b as int)),
            apply(m@, canonical@) == apply(m@, old(self).sym_at(a as int)),
        ensures
            final(self).wf(),
            final(self).consistent(m@),
            final(self).n() == old(self).n(),
            forall|i: int| 0 <= i < old(self).n() ==> final(self).sym_at(i) == old(self).sym_at(i),
            final(self).same_class(a as int, b as int),
            forall|i: int, j: int|
                0 <= i < old(self).n() && 0 <= j < old(self).n() && old(self).same_class(i, j)
                    ==> final(self).same_class(i, j),
    {
        proof {
            old(self).uf.lemma_class_bounds();
        }
        self.uf.unite(a, b);
        proof {
            self.uf.lemma_class_bounds();
        }
        let root = self.uf.find(a);
        let c = canonical.duplicate();
        self.canon.set(root, c);
        proof {
            let n = self.n() as int;
            let oldt = *old(self);
            self.uf.lemma_class_bounds();
            assert(root == self.uf.class_of(a as int));
            assert(root == oldt.uf.class_of(a as int) || root == oldt.uf.class_of(b as int));
            assert forall|i: int, j: int|
                0 <= i < n && 0 <= j < n && self.same_class(i, j) implies apply(
                m@,
                #[trigger] self.sym_at(i),
            ) == apply(m@, #[trigger] self.sym_at(j)) by {
                let ca = oldt.uf.class_of(a as int);
                let cb = oldt.uf.class_of(b as int);
                if oldt.uf.class_of(i) == ca || oldt.uf.class_of(i) == cb {
                    assert(oldt.same_class(i, i));
                    assert(apply(m@, oldt.sym_at(i)) == apply(m@, oldt.sym_at(a as int)) || apply(
                        m@,
                        oldt.sym_at(i),
                    ) == apply(m@, oldt.sym_at(b as int)));
                }
                if oldt.uf.class_of(j) == ca || oldt.uf.class_of(j) == cb {
                    assert(oldt.same_class(j, j));
                    assert(apply(m@, oldt.sym_at(j)) == apply(m@, oldt.sym_at(a as int)) || apply(
                        m@,
                        oldt.sym_at(j),
                    ) == apply(m@, oldt.sym_at(b as int)));
                }
                if !(oldt.uf.class_of(i) == ca || oldt.uf.class_of(i) == cb) && !(oldt.uf.class_of(
                    j,
                ) == ca || oldt.uf.class_of(j) == cb) {
                    assert(oldt.same_class(i, j));
                }
            }
            assert forall|i: int| 0 <= i < n implies apply(m@, #[trigger] self.rep_term(i))
                == apply(m@, self.sym_at(i)) by {
                let ca = oldt.uf.class_of(a as int);
                let cb = oldt.uf.class_of(b as int);
                if oldt.uf.class_of(i) == ca || oldt.uf.class_of(i) == cb {
                    assert(self.uf.class_of(i) == root);
                    assert(self.rep_term(i) == c@);
                    assert(oldt.same_class(i, i));
                    assert(apply(m@, oldt.sym_at(i)) == apply(m@, oldt.sym_at(a as int)) || apply(
                        m@,
                        oldt.sym_at(i),
                    ) == apply(m@, oldt.sym_at(b as int)));
                } else {
                    assert(self.uf.class_of(i) == oldt.uf.class_of(i));
                    assert(oldt.uf.class_of(i) < n);
                    assert(root == ca || root == cb);
                    assert(self.rep_term(i) == oldt.rep_term(i));
                    assert(apply(m@, oldt.rep_term(i)) == apply(m@, oldt.sym_at(i)));
                }
            }
        }
    }
}

} // verus!
