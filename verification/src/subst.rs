use vstd::prelude::*;
use vstd::map::*;
use crate::term::{Term, Symbol, apply, occurs_in, sym_eq, name_occurs};

verus! {

/// Why a unification step was refused.
#[derive(Clone, Copy, PartialEq, Eq, Structural, Debug)]
pub enum UnificationFailure {
    /// Two function terms with a different name or arity.
    StructuralMismatch,
    /// Binding the variable would create a cyclic, infinite term.
    OccursViolation,
    /// An already-bound variable was bound again to a different value.
    RebindingConflict,
    /// A non-variable was passed where a variable is required.
    ContractViolation,
}

/// The one-binding substitution `x -> w`.
pub open spec fn single(x: Seq<char>, w: Term) -> Map<Seq<char>, Term> {
    Map::empty().insert(x, w)
}

/// The store after binding `x -> w`: every older binding has `x` rewritten
/// to `w` inside it, so that stores stay fully dereferenced.
pub open spec fn extend(m: Map<Seq<char>, Term>, x: Seq<char>, w: Term) -> Map<Seq<char>, Term> {
    Map::new(
        |y: Seq<char>| y == x || m.dom().contains(y),
        |y: Seq<char>| if y == x {
            w
        } else {
            apply(single(x, w), m[y])
        },
    )
}


/// The substitution equivalent to applying `m1` first and then `m2`: every
/// binding `x -> t` of `m1` becomes `x -> apply(m2, t)`, and bindings only
/// in `m2` are carried over unchanged.
pub open spec fn compose_map(
    m1: Map<Seq<char>, Term>,
    m2: Map<Seq<char>, Term>,
) -> Map<Seq<char>, Term> {
    Map::new(
        |y: Seq<char>| m1.dom().contains(y) || m2.dom().contains(y),
        |y: Seq<char>| if m1.dom().contains(y) {
            apply(m2, m1[y])
        } else {
            m2[y]
        },
    )
}

/// No bound variable occurs inside any bound term. This is what makes a
/// one-pass `substitute` fully dereference every chain, and it entails
/// acyclicity: in particular no variable maps to a term containing itself.
pub open spec fn resolved_map(m: Map<Seq<char>, Term>) -> bool {
    forall|x: Seq<char>, y: Seq<char>|
        m.dom().contains(x) && m.dom().contains(y) ==> !(#[trigger] occurs_in(y, m[x]))
}

/// The mapping a sequence of (name, term) pairs denotes.
pub open spec fn map_of(bs: Seq<(String, Symbol)>) -> Map<Seq<char>, Term>
    decreases bs.len(),
{
    if bs.len() == 0 {
        Map::empty()
    } else {
        map_of(bs.drop_last()).insert(bs.last().0@, bs.last().1@)
    }
}

/// No two pairs bind the same variable name.
pub open spec fn keys_unique(bs: Seq<(String, Symbol)>) -> bool {
    forall|i: int, j: int| 0 <= i < j < bs.len() ==> bs[i].0@ != bs[j].0@
}

/// `k` is one of the bound names of `bs`.
pub open spec fn key_at(bs: Seq<(String, Symbol)>, k: Seq<char>) -> bool {
    exists|i: int| 0 <= i < bs.len() && bs[i].0@ == k
}

/// How `map_of` relates to the pair sequence: its domain is exactly the
/// keys, and (with unique keys) each pair gives its value.
pub proof fn lemma_map_of_props(bs: Seq<(String, Symbol)>)
    ensures
        forall|k: Seq<char>| #[trigger] map_of(bs).dom().contains(k) <==> key_at(bs, k),
        keys_unique(bs) ==> forall|i: int|
            0 <= i < bs.len() ==> map_of(bs)[#[trigger] bs[i].0@] == bs[i].1@,
    decreases bs.len(),
{
    if bs.len() > 0 {
        lemma_map_of_props(bs.drop_last());
        assert forall|k: Seq<char>| #[trigger] map_of(bs).dom().contains(k) implies key_at(
            bs,
            k,
        ) by {
            if k == bs.last().0@ {
                assert(bs[bs.len() - 1].0@ == k);
            } else {
                assert(map_of(bs.drop_last()).dom().contains(k));
                assert(key_at(bs.drop_last(), k));
                let i = choose|i: int|
                    0 <= i < bs.drop_last().len() && bs.drop_last()[i].0@ == k;
                assert(bs[i].0@ == k);
            }
        }
        assert forall|k: Seq<char>| key_at(bs, k) implies #[trigger] map_of(bs).dom().contains(
            k,
        ) by {
            let i = choose|i: int| 0 <= i < bs.len() && bs[i].0@ == k;
            if i < bs.len() - 1 {
                assert(bs.drop_last()[i].0@ == k);
                assert(key_at(bs.drop_last(), k));
                assert(map_of(bs.drop_last()).dom().contains(k));
            }
        }
        if keys_unique(bs) {
            assert(keys_unique(bs.drop_last()));
            assert forall|i: int| 0 <= i < bs.len() implies map_of(bs)[#[trigger] bs[i].0@]
                == bs[i].1@ by {
                if i < bs.len() - 1 {
                    assert(bs.drop_last()[i] == bs[i]);
                    assert(bs[i].0@ != bs.last().0@);
                }
            }
        }
    }
}

/// If `z` cannot reach `t` (either `z` is rewritten away by `m`, or it does
/// not occur in `t`) and no binding of `m` contains `z`, then `z` does not
/// occur in `apply(m, t)`.
pub proof fn lemma_apply_occurs(m: Map<Seq<char>, Term>, t: Term, z: Seq<char>)
    requires
        m.dom().contains(z) || !occurs_in(z, t),
        forall|v: Seq<char>| m.dom().contains(v) ==> !(#[trigger] occurs_in(z, m[v])),
    ensures
        !occurs_in(z, apply(m, t)),
    decreases t,
{
    match t {
        Term::Var(y) => {
            if m.dom().contains(y) {
                assert(apply(m, t) == m[y]);
                assert(!occurs_in(z, m[y]));
            } else {
                assert(apply(m, t) == Term::Var(y));
                if z == y {
                    assert(occurs_in(z, t));
                    assert(m.dom().contains(z));
                    assert(false);
                }
            }
        },
        Term::Fun(n, cs) => {
            assert forall|i: int| 0 <= i < cs.len() implies !occurs_in(
                z,
                #[trigger] apply(m, cs[i]),
            ) by {
                if !m.dom().contains(z) {
                    assert(!occurs_in(z, cs[i]));
                }
                lemma_apply_occurs(m, cs[i], z);
            }
            let acs = apply(m, t)->Fun_1;
            assert(acs.len() == cs.len());
            assert forall|i: int| 0 <= i < acs.len() implies !occurs_in(z, #[trigger] acs[i]) by {
                assert(acs[i] == apply(m, cs[i]));
                assert(!occurs_in(z, apply(m, cs[i])));
            }
            assert(!occurs_in(z, apply(m, t)));
        },
    }
}

/// A term without bound variables is a fixpoint of `apply`.
pub proof fn lemma_apply_id(m: Map<Seq<char>, Term>, t: Term)
    requires
        forall|v: Seq<char>| m.dom().contains(v) ==> !occurs_in(v, t),
    ensures
        apply(m, t) == t,
    decreases t,
{
    match t {
        Term::Var(y) => {
            if m.dom().contains(y) {
                assert(occurs_in(y, t));
            }
        },
        Term::Fun(n, cs) => {
            assert forall|i: int| 0 <= i < cs.len() implies #[trigger] apply(m, cs[i])
                == cs[i] by {
                assert forall|v: Seq<char>| m.dom().contains(v) implies !occurs_in(
                    v,
                    cs[i],
                ) by {
                    if occurs_in(v, cs[i]) {
                        assert(occurs_in(v, t));
                    }
                }
                lemma_apply_id(m, cs[i]);
            }
            let rcs = apply(m, t)->Fun_1;
            assert forall|i: int| 0 <= i < cs.len() implies rcs[i] == cs[i] by {
                assert(apply(m, cs[i]) == cs[i]);
            }
            assert(rcs =~= cs);
        },
    }
}

/// Substitution is idempotent on fully dereferenced stores: applying the
/// store twice gives the same term as applying it once.
pub proof fn lemma_apply_idempotent(m: Map<Seq<char>, Term>, t: Term)
    requires
        resolved_map(m),
    ensures
        apply(m, apply(m, t)) == apply(m, t),
{
    assert forall|v: Seq<char>| m.dom().contains(v) implies !occurs_in(v, apply(m, t)) by {
        lemma_apply_occurs(m, t, v);
    }
    lemma_apply_id(m, apply(m, t));
}


/// Extending a fully dereferenced store with an occurs-checked, fully
/// dereferenced binding keeps it fully dereferenced.
pub proof fn lemma_extend_resolved(m: Map<Seq<char>, Term>, x: Seq<char>, w: Term)
    requires
        resolved_map(m),
        !m.dom().contains(x),
        !occurs_in(x, w),
        forall|v: Seq<char>| m.dom().contains(v) ==> !occurs_in(v, w),
    ensures
        resolved_map(extend(m, x, w)),
{
    let m2 = extend(m, x, w);
    assert forall|y: Seq<char>, z: Seq<char>|
        m2.dom().contains(y) && m2.dom().contains(z) implies !(#[trigger] occurs_in(
        z,
        m2[y],
    )) by {
        if y == x {
            assert(m2[y] == w);
        } else {
            assert(m2[y] == apply(single(x, w), m[y]));
            assert(single(x, w)[x] == w);
            lemma_apply_occurs(single(x, w), m[y], z);
        }
    }
}


/// Applying an extended store is applying the old store and then the new
/// binding.
pub proof fn lemma_extend_apply(m: Map<Seq<char>, Term>, x: Seq<char>, w: Term, t: Term)
    requires
        !m.dom().contains(x),
    ensures
        apply(extend(m, x, w), t) == apply(single(x, w), apply(m, t)),
    decreases t,
{
    let ext = extend(m, x, w);
    match t {
        Term::Var(y) => {
            if y == x {
                assert(apply(ext, t) == w);
                assert(apply(m, t) == Term::Var(x));
                assert(apply(single(x, w), Term::Var(x)) == w);
            } else if m.dom().contains(y) {
                assert(apply(ext, t) == ext[y]);
                assert(ext[y] == apply(single(x, w), m[y]));
            } else {
                assert(apply(ext, t) == Term::Var(y));
                assert(apply(m, t) == Term::Var(y));
            }
        },
        Term::Fun(n, cs) => {
            assert forall|i: int| 0 <= i < cs.len() implies #[trigger] apply(ext, cs[i]) == apply(
                single(x, w),
                apply(m, cs[i]),
            ) by {
                lemma_extend_apply(m, x, w, cs[i]);
            }
            let l = apply(ext, t)->Fun_1;
            let r = apply(single(x, w), apply(m, t))->Fun_1;
            let mid = apply(m, t)->Fun_1;
            assert(l.len() == cs.len());
            assert(mid.len() == cs.len());
            assert(r.len() == cs.len());
            assert forall|i: int| 0 <= i < cs.len() implies l[i] == r[i] by {
                assert(l[i] == apply(ext, cs[i]));
                assert(mid[i] == apply(m, cs[i]));
                assert(r[i] == apply(single(x, w), mid[i]));
            }
            assert(l =~= r);
        },
    }
}

/// A store that agrees with every binding of `m` (looking a variable up and
/// applying its image come to the same thing under `c`) agrees with
/// everything `m` does.
pub proof fn lemma_apply_agree(c: Map<Seq<char>, Term>, m: Map<Seq<char>, Term>, t: Term)
    requires
        forall|x: Seq<char>|
            m.dom().contains(x) ==> apply(c, Term::Var(x)) == apply(c, #[trigger] m[x]),
    ensures
        apply(c, apply(m, t)) == apply(c, t),
    decreases t,
{
    match t {
        Term::Var(y) => {
            if m.dom().contains(y) {
                assert(apply(m, t) == m[y]);
                assert(apply(c, m[y]) == apply(c, Term::Var(y)));
            }
        },
        Term::Fun(n, cs) => {
            assert forall|i: int| 0 <= i < cs.len() implies #[trigger] apply(c, apply(m, cs[i]))
                == apply(c, cs[i]) by {
                lemma_apply_agree(c, m, cs[i]);
            }
            let mcs = apply(m, t)->Fun_1;
            let l = apply(c, apply(m, t))->Fun_1;
            let r = apply(c, t)->Fun_1;
            assert(mcs.len() == cs.len());
            assert(l.len() == cs.len());
            assert(r.len() == cs.len());
            assert forall|i: int| 0 <= i < cs.len() implies l[i] == r[i] by {
                assert(mcs[i] == apply(m, cs[i]));
                assert(l[i] == apply(c, mcs[i]));
                assert(r[i] == apply(c, cs[i]));
            }
            assert(l =~= r);
        },
    }
}

/// A substitution store: a mapping from variable name to bound term, kept
/// fully dereferenced (`resolved`), so that one `substitute` pass resolves
/// every chain of bindings.
pub struct Substitution {
    bindings: Vec<(String, Symbol)>,
}

impl View for Substitution {
    type V = Map<Seq<char>, Term>;

    closed spec fn view(&self) -> Map<Seq<char>, Term> {
        map_of(self.bindings@)
    }
}

impl Substitution {
    /// The representation binds each variable once.
    pub closed spec fn wf(self) -> bool {
        keys_unique(self.bindings@)
    }

    /// The store invariant: see `resolved_map`.
    pub open spec fn resolved(self) -> bool {
        resolved_map(self@)
    }

    /// The empty store.
    pub fn new() -> (r: Substitution)
        ensures
            r.wf(),
            r.resolved(),
            r@ == Map::<Seq<char>, Term>::empty(),
    {
        Substitution { bindings: Vec::new() }
    }

    /// The term bound to `x`, if any.
    #[verifier::loop_isolation(false)]
    fn lookup(&self, x: &String) -> (r: Option<&Symbol>)
        requires
            self.wf(),
        ensures
            match r {
                Some(t) => self@.dom().contains(x@) && t@ == self@[x@],
                None => !self@.dom().contains(x@),
            },
    {
        proof {
            lemma_map_of_props(self.bindings@);
        }
        let mut i: usize = 0;
        while i < self.bindings.len()
            invariant
                i <= self.bindings@.len(),
                self.wf(),
                forall|j: int| 0 <= j < i ==> self.bindings@[j].0@ != x@,
            decreases self.bindings@.len() - i,
        {
            if self.bindings[i].0 == *x {
                proof {
                    assert(self.bindings@[i as int].0@ == x@);
                    assert(key_at(self.bindings@, x@));
                }
                return Some(&self.bindings[i].1);
            }
            i = i + 1;
        }
        proof {
            if self@.dom().contains(x@) {
                assert(key_at(self.bindings@, x@));
            }
        }
        None
    }


    /// Binds a variable to a term. The left operand must be a `Variable`
    /// symbol (a `Function` is refused as a contract violation); the bound
    /// term is fully dereferenced first and occurs-checked, and an
    /// already-bound variable may only be "re"-bound to the value it
    /// already dereferences to. On success every older binding is rewritten
    /// with the new one, so the store stays fully dereferenced.
    pub fn add(&mut self, s: Symbol, t: Symbol) -> (r: Result<(), UnificationFailure>)
        requires
            old(self).wf(),
            old(self).resolved(),
        ensures
            final(self).wf(),
            final(self).resolved(),
            !(old(self)@ == final(self)@) ==> r is Ok,
            !(s@ is Var) ==> r == Err::<(), UnificationFailure>(
                UnificationFailure::ContractViolation,
            ) && final(self)@ == old(self)@,
            s@ matches Term::Var(x) ==> ({
                let w = apply(old(self)@, t@);
                &&& (old(self)@.dom().contains(x) && old(self)@[x] == w ==> r is Ok && final(self)@ == old(self)@)
                &&& (old(self)@.dom().contains(x) && old(self)@[x] != w ==> r == Err::<
                    (),
                    UnificationFailure,
                >(UnificationFailure::RebindingConflict) && final(self)@ == old(self)@)
                &&& (!old(self)@.dom().contains(x) && occurs_in(x, w) ==> r == Err::<
                    (),
                    UnificationFailure,
                >(UnificationFailure::OccursViolation) && final(self)@ == old(self)@)
                &&& (!old(self)@.dom().contains(x) && !occurs_in(x, w) ==> r is Ok && final(self)@ == extend(old(self)@, x, w))
            }),
    {
        let ghost m0 = self@;
        let x = match s {
            Symbol::Var(name) => name,
            Symbol::Function(_, _) => {
                return Err(UnificationFailure::ContractViolation);
            },
        };
        let w = self.substitute(&t);
        let bound = self.lookup(&x);
        if let Some(existing) = bound {
            if sym_eq(existing, &w) {
                return Ok(());
            } else {
                return Err(UnificationFailure::RebindingConflict);
            }
        }
        if name_occurs(&x, &w) {
            return Err(UnificationFailure::OccursViolation);
        }
        proof {
            assert forall|v: Seq<char>| m0.dom().contains(v) implies !occurs_in(v, w@) by {
                lemma_apply_occurs(m0, t@, v);
            }
            lemma_extend_resolved(m0, x@, w@);
            lemma_map_of_props(self.bindings@);
        }
        // rewrite every older binding with the new one, then append it
        let mut unit_vec: Vec<(String, Symbol)> = Vec::new();
        let xc = x.clone();
        let wc = w.duplicate();
        unit_vec.push((xc, wc));
        let unit = Substitution { bindings: unit_vec };
        proof {
            assert(unit.bindings@.drop_last() =~= Seq::<(String, Symbol)>::empty());
            assert(map_of(Seq::<(String, Symbol)>::empty()) == Map::<Seq<char>, Term>::empty());
            assert(unit.bindings@.last().0@ == x@ && unit.bindings@.last().1@ == w@);
            assert(unit@ =~= single(x@, w@));
        }
        let mut out: Vec<(String, Symbol)> = Vec::new();
        let mut i: usize = 0;
        while i < self.bindings.len()
            invariant
                i <= self.bindings@.len(),
                out@.len() == i as int,
                unit.wf(),
                unit@ == single(x@, w@),
                forall|j: int| 0 <= j < i ==> out@[j].0 == self.bindings@[j].0,
                forall|j: int| 0 <= j < i ==> (#[trigger] out@[j].1)@ == apply(
                    single(x@, w@),
                    self.bindings@[j].1@,
                ),
            decreases self.bindings@.len() - i,
        {
            let y = self.bindings[i].0.clone();
            let nu = unit.substitute(&self.bindings[i].1);
            out.push((y, nu));
            i = i + 1;
        }
        out.push((x, w));
        proof {
            let bs = self.bindings@;
            let os = out@;
            assert(os.len() == bs.len() + 1);
            assert forall|a: int, b: int| 0 <= a < b < os.len() implies os[a].0@ != os[b].0@ by {
                if b < bs.len() {
                    assert(bs[a].0@ != bs[b].0@);
                } else {
                    assert(!key_at(bs, x@));
                    assert(bs[a].0@ != x@);
                }
            }
        }
        self.bindings = out;
        proof {
            let bs = old(self).bindings@;
            let os = self.bindings@;
            lemma_map_of_props(os);
            let ext = extend(m0, x@, w@);
            assert forall|k: Seq<char>| #[trigger] ext.dom().contains(k) implies map_of(
                os,
            ).dom().contains(k) by {
                if k == x@ {
                    assert(os[os.len() - 1].0@ == k);
                    assert(key_at(os, k));
                } else {
                    assert(key_at(bs, k));
                    let a = choose|a: int| 0 <= a < bs.len() && bs[a].0@ == k;
                    assert(os[a].0@ == k);
                    assert(key_at(os, k));
                }
            }
            assert forall|k: Seq<char>| #[trigger] map_of(os).dom().contains(k) implies ext.dom().contains(
                k,
            ) && map_of(os)[k] == ext[k] by {
                assert(key_at(os, k));
                let a = choose|a: int| 0 <= a < os.len() && os[a].0@ == k;
                assert(map_of(os)[os[a].0@] == os[a].1@);
                if a == os.len() - 1 {
                    assert(k == x@);
                    assert(map_of(os)[k] == w@);
                } else {
                    assert(os[a].0@ == bs[a].0@);
                    assert(key_at(bs, k));
                    assert(map_of(bs)[bs[a].0@] == bs[a].1@);
                    assert(map_of(os)[k] == apply(single(x@, w@), m0[k]));
                }
            }
            assert(map_of(os) =~= ext);
        }
        Ok(())
    }


    /// Produces the substitution equivalent to applying `self` followed by
    /// `other`: it binds exactly the variables of the two stores, is fully
    /// dereferenced, and agrees with the pair applied in sequence. A
    /// combination in which some variable reaches itself — directly or
    /// through other combined bindings — fails with an occurs-violation;
    /// one whose combined bindings are already fully dereferenced always
    /// succeeds.
    #[verifier::loop_isolation(false)]
    #[verifier::rlimit(50)]
    pub fn compose(&self, other: &Substitution) -> (r: Result<
        Substitution,
        UnificationFailure,
    >)
        requires
            self.wf(),
            self.resolved(),
            other.wf(),
            other.resolved(),
        ensures
            match r {
                Ok(c) => {
                    &&& c.wf()
                    &&& c.resolved()
                    &&& forall|x: Seq<char>|
                        #[trigger] c@.dom().contains(x) <==> (self@.dom().contains(x)
                            || other@.dom().contains(x))
                    &&& forall|x: Seq<char>|
                        #[trigger] c@.dom().contains(x) ==> c@[x] == apply(
                            c@,
                            compose_map(self@, other@)[x],
                        )
                    &&& forall|t: Term|
                        #[trigger] apply(c@, apply(compose_map(self@, other@), t)) == apply(c@, t)
                },
                Err(e) => e == UnificationFailure::OccursViolation,
            },
            resolved_map(compose_map(self@, other@)) ==> r is Ok,
    {
        proof {
            lemma_map_of_props(self.bindings@);
            lemma_map_of_props(other.bindings@);
        }
        let ghost m1 = self@;
        let ghost m2 = other@;
        let ghost cm = compose_map(m1, m2);
        let ghost bs1 = self.bindings@;
        let ghost bs2 = other.bindings@;
        let len1 = self.bindings.len();
        let mut out: Vec<(String, Symbol)> = Vec::new();
        let mut i: usize = 0;
        while i < len1
            invariant
                i <= len1,
                out@.len() == i as int,
                forall|j: int| 0 <= j < i ==> out@[j].0 == bs1[j].0,
                forall|j: int| 0 <= j < i ==> (#[trigger] out@[j].1)@ == apply(m2, bs1[j].1@),
                forall|a: int, b: int| 0 <= a < b < i ==> out@[a].0@ != out@[b].0@,
            decreases len1 - i,
        {
            let y = self.bindings[i].0.clone();
            let nu = other.substitute(&self.bindings[i].1);
            out.push((y, nu));
            proof {
                assert forall|a: int| 0 <= a < i implies out@[a].0@ != out@[i as int].0@ by {
                    assert(bs1[a].0@ != bs1[i as int].0@);
                }
            }
            i = i + 1;
        }
        let mut j: usize = 0;
        while j < other.bindings.len()
            invariant
                j <= bs2.len(),
                out@.len() >= len1,
                forall|a: int| 0 <= a < len1 ==> out@[a].0 == bs1[a].0,
                forall|a: int| 0 <= a < len1 ==> (#[trigger] out@[a].1)@ == apply(m2, bs1[a].1@),
                forall|a: int|
                    len1 <= a < out@.len() ==> !m1.dom().contains((#[trigger] out@[a].0)@),
                forall|a: int|
                    len1 <= a < out@.len() ==> m2.dom().contains(out@[a].0@) && (
                    #[trigger] out@[a].1)@ == m2[out@[a].0@],
                forall|a: int|
                    len1 <= a < out@.len() ==> exists|j2: int|
                        0 <= j2 < j && (#[trigger] out@[a].0)@ == bs2[j2].0@,
                forall|j2: int|
                    0 <= j2 < j && !m1.dom().contains(bs2[j2].0@) ==> key_at(
                        out@,
                        (#[trigger] bs2[j2].0)@,
                    ),
                forall|a: int, b: int| 0 <= a < b < out@.len() ==> out@[a].0@ != out@[b].0@,
            decreases bs2.len() - j,
        {
            let bound = self.lookup(&other.bindings[j].0);
            if bound.is_none() {
                let y = other.bindings[j].0.clone();
                let u = other.bindings[j].1.duplicate();
                proof {
                    assert(map_of(bs2)[bs2[j as int].0@] == bs2[j as int].1@);
                }
                let ghost out0 = out@;
                out.push((y, u));
                proof {
                    assert forall|a: int| 0 <= a < out0.len() implies out0[a].0@ != bs2[
                        j as int].0@ by {
                        if a < len1 {
                            assert(bs1[a].0@ == out0[a].0@);
                            assert(key_at(bs1, out0[a].0@));
                        } else {
                            let j2 = choose|j2: int|
                                0 <= j2 < j && out0[a].0@ == bs2[j2].0@;
                            assert(bs2[j2].0@ != bs2[j as int].0@);
                        }
                    }
                    let a = out@.len() - 1;
                    assert(out@[a].0@ == bs2[j as int].0@);
                    assert(key_at(out@, bs2[j as int].0@));
                    assert forall|j2: int|
                        0 <= j2 < j && !m1.dom().contains(bs2[j2].0@) implies key_at(
                        out@,
                        (bs2[j2].0)@,
                    ) by {
                        let b = choose|b: int| 0 <= b < out0.len() && out0[b].0@ == bs2[j2].0@;
                        assert(out@[b].0@ == bs2[j2].0@);
                    }
                }
            }
            j = j + 1;
        }
        proof {
            let os = out@;
            lemma_map_of_props(os);
            assert forall|k: Seq<char>| #[trigger] cm.dom().contains(k) implies map_of(
                os,
            ).dom().contains(k) by {
                if m1.dom().contains(k) {
                    assert(key_at(bs1, k));
                    let a = choose|a: int| 0 <= a < bs1.len() && bs1[a].0@ == k;
                    assert(os[a].0@ == k);
                    assert(key_at(os, k));
                } else {
                    assert(key_at(bs2, k));
                    let j2 = choose|j2: int| 0 <= j2 < bs2.len() && bs2[j2].0@ == k;
                    assert(key_at(os, k));
                }
            }
            assert forall|k: Seq<char>| #[trigger] map_of(os).dom().contains(k) implies cm.dom().contains(
                k,
            ) && map_of(os)[k] == cm[k] by {
                assert(key_at(os, k));
                let a = choose|a: int| 0 <= a < os.len() && os[a].0@ == k;
                assert(map_of(os)[os[a].0@] == os[a].1@);
                if a < len1 {
                    assert(bs1[a].0@ == k);
                    assert(key_at(bs1, k));
                    assert(map_of(bs1)[bs1[a].0@] == bs1[a].1@);
                    assert(map_of(os)[k] == apply(m2, m1[k]));
                } else {
                    assert(!m1.dom().contains(k));
                    assert(map_of(os)[k] == m2[k]);
                }
            }
            assert(map_of(os) =~= cm);
            assert forall|a2: int| 0 <= a2 < os.len() implies (#[trigger] os[a2].1)@ == cm[os[a2].0@] by {
                assert(os[a2].0@ == os[a2].0@ && key_at(os, os[a2].0@));
                assert(map_of(os)[os[a2].0@] == os[a2].1@);
            }
        }
        // commit the combined bindings one at a time: `add` dereferences
        // each one fully against what is already committed and
        // occurs-checks it, so a variable that reaches itself through the
        // combination is refused wherever the cycle closes
        let mut comp = Substitution::new();
        let mut a: usize = 0;
        while a < out.len()
            invariant
                a <= out@.len(),
                comp.wf(),
                comp.resolved(),
                forall|x: Seq<char>|
                    #[trigger] comp@.dom().contains(x) <==> exists|i2: int|
                        0 <= i2 < a && out@[i2].0@ == x,
                forall|x: Seq<char>|
                    #[trigger] comp@.dom().contains(x) ==> apply(comp@, Term::Var(x)) == apply(
                        comp@,
                        cm[x],
                    ),
            decreases out@.len() - a,
        {
            let y = out[a].0.clone();
            let ghost yv = y@;
            let t = out[a].1.duplicate();
            proof {
                assert(yv == out@[a as int].0@);
                assert(t@ == cm[yv]);
                assert(key_at(out@, yv));
                if comp@.dom().contains(yv) {
                    let i0 = choose|i2: int| 0 <= i2 < a && out@[i2].0@ == yv;
                    assert(out@[i0].0@ != out@[a as int].0@);
                    assert(false);
                }
            }
            let ghost cj = comp@;
            let res = comp.add(Symbol::Var(y), t);
            match res {
                Ok(()) => {
                    proof {
                        let w = apply(cj, cm[yv]);
                        assert(comp@ == extend(cj, yv, w));
                        assert(!occurs_in(yv, w));
                        assert forall|x: Seq<char>|
                            #[trigger] comp@.dom().contains(x) implies exists|i2: int|
                                0 <= i2 < a + 1 && out@[i2].0@ == x by {
                            if x == yv {
                                assert(out@[a as int].0@ == x);
                            } else {
                                assert(cj.dom().contains(x));
                                let i0 = choose|i2: int| 0 <= i2 < a && out@[i2].0@ == x;
                                assert(0 <= i0 < a + 1 && out@[i0].0@ == x);
                            }
                        }
                        assert forall|x: Seq<char>|
                            #[trigger] comp@.dom().contains(x) implies apply(
                            comp@,
                            Term::Var(x),
                        ) == apply(comp@, cm[x]) by {
                            if x == yv {
                                assert(apply(comp@, Term::Var(yv)) == w);
                                lemma_extend_apply(cj, yv, w, cm[yv]);
                                assert(apply(comp@, cm[yv]) == apply(single(yv, w), w));
                                lemma_apply_id(single(yv, w), w);
                            } else {
                                lemma_extend_apply(cj, yv, w, Term::Var(x));
                                lemma_extend_apply(cj, yv, w, cm[x]);
                                assert(apply(cj, Term::Var(x)) == apply(cj, cm[x]));
                            }
                        }
                    }
                },
                Err(_) => {
                    proof {
                        assert(occurs_in(yv, apply(cj, cm[yv])));
                        if resolved_map(cm) {
                            assert forall|v: Seq<char>|
                                cj.dom().contains(v) implies !occurs_in(v, cm[yv]) by {
                                assert(cm.dom().contains(v));
                            }
                            lemma_apply_id(cj, cm[yv]);
                            assert(occurs_in(yv, cm[yv]));
                            assert(false);
                        }
                    }
                    return Err(UnificationFailure::OccursViolation);
                },
            }
            a = a + 1;
        }
        proof {
            assert forall|x: Seq<char>| #[trigger] comp@.dom().contains(x) implies cm.dom().contains(
                x,
            ) by {
                let i0 = choose|i2: int| 0 <= i2 < out@.len() && out@[i2].0@ == x;
                assert(key_at(out@, x));
            }
            assert forall|x: Seq<char>| cm.dom().contains(x) implies #[trigger] comp@.dom().contains(
                x,
            ) by {
                assert(key_at(out@, x));
                let i0 = choose|i2: int| 0 <= i2 < out@.len() && out@[i2].0@ == x;
            }
            assert forall|t: Term| #[trigger] apply(comp@, apply(cm, t)) == apply(comp@, t) by {
                lemma_apply_agree(comp@, cm, t);
            }
        }
        Ok(comp)
    }

    /// Replaces every bound variable reachable in `t` by its binding, in one
    /// pass; unbound variables and function structure are kept intact. Pure:
    /// the store is not changed.
    #[verifier::loop_isolation(false)]
    pub fn substitute(&self, t: &Symbol) -> (r: Symbol)
        requires
            self.wf(),
        ensures
            r@ == apply(self@, t@),
        decreases t,
    {
        match t {
            Symbol::Var(s) => match self.lookup(s) {
                Some(b) => b.duplicate(),
                None => Symbol::Var(s.clone()),
            },
            Symbol::Function(n, cs) => {
                let mut out: Vec<Symbol> = Vec::new();
                let mut i: usize = 0;
                while i < cs.len()
                    invariant
                        i <= cs.len(),
                        out@.len() == i as int,
                        forall|j: int| 0 <= j < i ==> out@[j]@ == apply(self@, cs@[j]@),
                    decreases cs.len() - i,
                {
                    let c = self.substitute(&cs[i]);
                    out.push(c);
                    i = i + 1;
                }
                let r = Symbol::Function(n.clone(), out);
                proof {
                    assert(t@ matches Term::Fun(tn, tcs) && apply(self@, t@) matches Term::Fun(
                        an,
                        acs,
                    ) && r@ matches Term::Fun(rn, rcs) && rn == an && rcs =~= acs);
                }
                r
            },
        }
    }
}

} // verus!
