use vstd::prelude::*;
use crate::term::{Term, Symbol, apply, occurs_in, size, size_of_children, lemma_child_size, name_occurs};
use crate::subst::{
    Substitution, UnificationFailure, single, extend, resolved_map, lemma_apply_occurs,
    lemma_apply_id, lemma_apply_idempotent, lemma_apply_agree, lemma_extend_apply,
};
use crate::table::SymbolTable;

verus! {

/// `m2` refines `m1`: everything `m1` does to a term, `m2` agrees with.
/// Every store produced by unification refines the store it started from,
/// so bindings are only ever strengthened, never contradicted.
pub open spec fn refines(m2: Map<Seq<char>, Term>, m1: Map<Seq<char>, Term>) -> bool {
    forall|t: Term| #[trigger] apply(m2, apply(m1, t)) == apply(m2, t)
}

/// A fully dereferenced store refines itself.
pub proof fn lemma_refines_refl(m: Map<Seq<char>, Term>)
    requires
        resolved_map(m),
    ensures
        refines(m, m),
{
    assert forall|t: Term| #[trigger] apply(m, apply(m, t)) == apply(m, t) by {
        lemma_apply_idempotent(m, t);
    }
}

/// Binding one more variable refines the store it extends.
pub proof fn lemma_refines_extend(m: Map<Seq<char>, Term>, x: Seq<char>, w: Term)
    requires
        resolved_map(m),
        !m.dom().contains(x),
    ensures
        refines(extend(m, x, w), m),
{
    let ext = extend(m, x, w);
    assert forall|t: Term| #[trigger] apply(ext, apply(m, t)) == apply(ext, t) by {
        lemma_extend_apply(m, x, w, apply(m, t));
        lemma_apply_idempotent(m, t);
        lemma_extend_apply(m, x, w, t);
    }
}

/// `refines` is transitive.
pub proof fn lemma_refines_trans(
    m3: Map<Seq<char>, Term>,
    m2: Map<Seq<char>, Term>,
    m1: Map<Seq<char>, Term>,
)
    requires
        refines(m3, m2),
        refines(m2, m1),
    ensures
        refines(m3, m1),
{
    assert forall|t: Term| #[trigger] apply(m3, apply(m1, t)) == apply(m3, t) by {
        assert(apply(m3, apply(m2, apply(m1, t))) == apply(m3, apply(m1, t)));
        assert(apply(m2, apply(m1, t)) == apply(m2, t));
        assert(apply(m3, apply(m2, t)) == apply(m3, t));
    }
}

/// Every variable of `apply(m, t)` comes either from `t` itself or from the
/// binding of a variable of `t`.
pub proof fn lemma_apply_vars(m: Map<Seq<char>, Term>, t: Term, vsall: Set<Seq<char>>)
    requires
        forall|z: Seq<char>| occurs_in(z, t) ==> vsall.contains(z),
        forall|x: Seq<char>, z: Seq<char>|
            occurs_in(x, t) && m.dom().contains(x) && #[trigger] occurs_in(z, m[x])
                ==> vsall.contains(z),
    ensures
        forall|z: Seq<char>| occurs_in(z, apply(m, t)) ==> vsall.contains(z),
    decreases t,
{
    match t {
        Term::Var(y) => {
            if m.dom().contains(y) {
                assert(apply(m, t) == m[y]);
                assert(occurs_in(y, t));
                assert forall|z: Seq<char>| occurs_in(z, apply(m, t)) implies vsall.contains(
                    z,
                ) by {
                    assert(occurs_in(z, m[y]));
                }
            }
        },
        Term::Fun(n, cs) => {
            let acs = apply(m, t)->Fun_1;
            assert forall|z: Seq<char>| occurs_in(z, apply(m, t)) implies vsall.contains(z) by {
                let i = choose|i: int| 0 <= i < acs.len() && occurs_in(z, acs[i]);
                assert(acs[i] == apply(m, cs[i]));
                assert forall|z2: Seq<char>| occurs_in(z2, cs[i]) implies vsall.contains(z2) by {
                    assert(occurs_in(z2, t));
                }
                assert forall|x: Seq<char>, z2: Seq<char>|
                    occurs_in(x, cs[i]) && m.dom().contains(x) && #[trigger] occurs_in(
                        z2,
                        m[x],
                    ) implies vsall.contains(z2) by {
                    assert(occurs_in(x, t));
                }
                lemma_apply_vars(m, cs[i], vsall);
            }
        },
    }
}

/// A fully dereferenced term holds no bound variable.
pub proof fn lemma_fixpoint_no_dom_vars(m: Map<Seq<char>, Term>, t: Term)
    requires
        resolved_map(m),
        apply(m, t) == t,
    ensures
        forall|x: Seq<char>| m.dom().contains(x) ==> !occurs_in(x, t),
    decreases t,
{
    match t {
        Term::Var(y) => {
            if m.dom().contains(y) {
                assert(apply(m, t) == m[y]);
                assert(occurs_in(y, m[y]));
                assert(false);
            }
        },
        Term::Fun(n, cs) => {
            let acs = apply(m, t)->Fun_1;
            assert forall|x: Seq<char>| m.dom().contains(x) implies !occurs_in(x, t) by {
                if occurs_in(x, t) {
                    let i = choose|i: int| 0 <= i < cs.len() && occurs_in(x, cs[i]);
                    assert(acs[i] == apply(m, cs[i]));
                    assert(acs =~= cs);
                    lemma_fixpoint_no_dom_vars(m, cs[i]);
                }
            }
        },
    }
}

/// The children of a fully dereferenced function term are fully
/// dereferenced too.
pub proof fn lemma_fixpoint_children(m: Map<Seq<char>, Term>, t: Term)
    requires
        apply(m, t) == t,
        t is Fun,
    ensures
        forall|i: int|
            0 <= i < t->Fun_1.len() ==> #[trigger] apply(m, t->Fun_1[i]) == t->Fun_1[i],
{
    let cs = t->Fun_1;
    let acs = apply(m, t)->Fun_1;
    assert forall|i: int| 0 <= i < cs.len() implies #[trigger] apply(m, cs[i]) == cs[i] by {
        assert(acs[i] == apply(m, cs[i]));
        assert(acs == cs);
    }
}

/// A variable occurring inside a function term denotes a strictly smaller
/// term than the whole, under every substitution: the reason no
/// substitution can make `x` and a function term containing `x` equal.
pub proof fn lemma_occurs_size(m: Map<Seq<char>, Term>, x: Seq<char>, t: Term)
    requires
        occurs_in(x, t),
    ensures
        size(apply(m, Term::Var(x))) <= size(apply(m, t)),
        t is Fun ==> size(apply(m, Term::Var(x))) < size(apply(m, t)),
    decreases t,
{
    match t {
        Term::Var(y) => {
            assert(y == x);
        },
        Term::Fun(n, cs) => {
            let i = choose|i: int| 0 <= i < cs.len() && occurs_in(x, cs[i]);
            lemma_occurs_size(m, x, cs[i]);
            let acs = apply(m, t)->Fun_1;
            assert(acs[i] == apply(m, cs[i]));
            lemma_child_size(acs, i);
            assert(size(apply(m, t)) == 1 + size_of_children(acs));
        },
    }
}

/// `x` is the view of one of the collected names.
pub open spec fn var_listed(vars: Seq<String>, x: Seq<char>) -> bool {
    exists|i: int| 0 <= i < vars.len() && vars[i]@ == x
}

/// The set of listed names is finite.
pub proof fn lemma_listed_finite(vars: Seq<String>)
    ensures
        Set::new(|x: Seq<char>| var_listed(vars, x)).finite(),
    decreases vars.len(),
{
    let s = Set::new(|x: Seq<char>| var_listed(vars, x));
    if vars.len() == 0 {
        assert(s =~= Set::<Seq<char>>::empty());
    } else {
        lemma_listed_finite(vars.drop_last());
        let s0 = Set::new(|x: Seq<char>| var_listed(vars.drop_last(), x));
        assert forall|x: Seq<char>| s.contains(x) implies s0.insert(vars.last()@).contains(x) by {
            let i = choose|i: int| 0 <= i < vars.len() && vars[i]@ == x;
            if i < vars.len() - 1 {
                assert(vars.drop_last()[i]@ == x);
            }
        }
        assert forall|x: Seq<char>| s0.insert(vars.last()@).contains(x) implies s.contains(x) by {
            if s0.contains(x) {
                let i = choose|i: int| 0 <= i < vars.drop_last().len() && vars.drop_last()[i]@
                    == x;
                assert(vars[i]@ == x);
            } else {
                assert(vars[vars.len() - 1]@ == x);
            }
        }
        assert(s =~= s0.insert(vars.last()@));
    }
}

/// Collects the names of every variable occurring in `t`.
#[verifier::loop_isolation(false)]
fn collect_vars(t: &Symbol, out: &mut Vec<String>)
    ensures
        final(out)@.len() >= old(out)@.len(),
        forall|j: int| 0 <= j < old(out)@.len() ==> final(out)@[j] == old(out)@[j],
        forall|x: Seq<char>| occurs_in(x, t@) ==> var_listed(final(out)@, x),
        forall|j: int|
            old(out)@.len() <= j < final(out)@.len() ==> occurs_in(
                (#[trigger] final(out)@[j])@,
                t@,
            ),
    decreases t,
{
    match t {
        Symbol::Var(s) => {
            out.push(s.clone());
            proof {
                assert(out@[out@.len() - 1]@ == s@);
                assert(var_listed(out@, s@));
            }
        },
        Symbol::Function(_, cs) => {
            let ghost base = out@;
            let mut i: usize = 0;
            while i < cs.len()
                invariant
                    i <= cs.len(),
                    out@.len() >= base.len(),
                    forall|j: int| 0 <= j < base.len() ==> out@[j] == base[j],
                    forall|i2: int, x: Seq<char>|
                        0 <= i2 < i && #[trigger] occurs_in(x, cs@[i2]@) ==> var_listed(out@, x),
                    forall|j: int|
                        base.len() <= j < out@.len() ==> occurs_in((#[trigger] out@[j])@, t@),
                decreases cs.len() - i,
            {
                let ghost prev = out@;
                collect_vars(&cs[i], out);
                proof {
                    assert forall|i2: int, x: Seq<char>|
                        0 <= i2 < i && occurs_in(x, cs@[i2]@) implies var_listed(out@, x) by {
                        let j = choose|j: int| 0 <= j < prev.len() && prev[j]@ == x;
                        assert(out@[j] == prev[j]);
                    }
                    assert forall|j: int|
                        prev.len() <= j < out@.len() implies occurs_in(
                        (#[trigger] out@[j])@,
                        t@,
                    ) by {
                        assert(occurs_in(out@[j]@, cs@[i as int]@));
                        assert(t@ matches Term::Fun(tn, tcs) && tcs[i as int] == cs@[i as int]@);
                    }
                }
                i = i + 1;
            }
            proof {
                assert forall|x: Seq<char>| occurs_in(x, t@) implies var_listed(out@, x) by {
                    let tcs = t@->Fun_1;
                    let k = choose|k: int| 0 <= k < tcs.len() && occurs_in(x, tcs[k]);
                    assert(tcs[k] == cs@[k]@);
                }
            }
        },
    }
}

/// A variable the store does not bind survives substitution.
pub proof fn lemma_occurs_apply_unbound(m: Map<Seq<char>, Term>, x: Seq<char>, t: Term)
    requires
        !m.dom().contains(x),
        occurs_in(x, t),
    ensures
        occurs_in(x, apply(m, t)),
    decreases t,
{
    match t {
        Term::Var(y) => {
            assert(y == x);
        },
        Term::Fun(n, cs) => {
            let i = choose|i: int| 0 <= i < cs.len() && occurs_in(x, cs[i]);
            lemma_occurs_apply_unbound(m, x, cs[i]);
            let acs = apply(m, t)->Fun_1;
            assert(acs[i] == apply(m, cs[i]));
        },
    }
}

/// Occurs-check soundness: a variable that the store leaves unbound, facing
/// a function term in which it occurs, meets exactly the occurs-violation
/// premise of `unify`'s contract — so `unify(Variable(x), t, store)` fails
/// with `OccursViolation` and leaves the store unchanged.
pub proof fn lemma_occurs_check_soundness(m: Map<Seq<char>, Term>, x: Seq<char>, t: Term)
    requires
        !m.dom().contains(x),
        t is Fun,
        occurs_in(x, t),
    ensures
        apply(m, Term::Var(x)) == Term::Var(x),
        apply(m, t) is Fun,
        apply(m, Term::Var(x))->Var_0 == x,
        occurs_in(x, apply(m, t)),
{
    lemma_occurs_apply_unbound(m, x, t);
}

/// Substitution keeps a function term's name and arity, so two function
/// terms whose signatures differ still differ after dereferencing — with
/// `unify`'s contract, unifying them fails with `StructuralMismatch` and
/// leaves the store unchanged, whatever the store holds.
pub proof fn lemma_apply_signature(m: Map<Seq<char>, Term>, t: Term)
    requires
        t is Fun,
    ensures
        apply(m, t) is Fun,
        apply(m, t)->Fun_0 == t->Fun_0,
        apply(m, t)->Fun_1.len() == t->Fun_1.len(),
{
}

/// `t1` and `t2` can be made equal by some store refining `m`. `unify`'s
/// contract exhibits such a store whenever it succeeds.
pub open spec fn unifiable(m: Map<Seq<char>, Term>, t1: Term, t2: Term) -> bool {
    exists|m2: Map<Seq<char>, Term>| #[trigger] refines(m2, m) && apply(m2, t1) == apply(m2, t2)
}

/// Symmetry of success: from one store, a pair of terms can be unified
/// exactly when the swapped pair can. Together with `unify`'s contract —
/// which returns `Ok` exactly on unifiable pairs — this says that
/// `unify(t1, t2, store)` succeeds exactly when `unify(t2, t1, store)`
/// does, from an equivalent initial store.
pub proof fn lemma_unifiable_symmetric(m: Map<Seq<char>, Term>, t1: Term, t2: Term)
    ensures
        unifiable(m, t1, t2) <==> unifiable(m, t2, t1),
{
    if unifiable(m, t1, t2) {
        let m2 = choose|m2: Map<Seq<char>, Term>| #[trigger] refines(m2, m) && apply(m2, t1)
            == apply(m2, t2);
        assert(refines(m2, m) && apply(m2, t2) == apply(m2, t1));
    }
    if unifiable(m, t2, t1) {
        let m2 = choose|m2: Map<Seq<char>, Term>| #[trigger] refines(m2, m) && apply(m2, t2)
            == apply(m2, t1);
        assert(refines(m2, m) && apply(m2, t1) == apply(m2, t2));
    }
}

/// The recursive engine. Both arguments are fully dereferenced against the
/// store at entry; the ghost `vs` is a finite universe holding every
/// variable the call may bind (all fresh with respect to the store).
#[verifier::loop_isolation(false)]
#[verifier::rlimit(100)]
fn unify_core(
    st: &mut Substitution,
    tbl: &mut SymbolTable,
    a: &Symbol,
    b: &Symbol,
    vs: Ghost<Set<Seq<char>>>,
) -> (r: Result<(), UnificationFailure>)
    requires
        old(st).wf(),
        old(st).resolved(),
        old(tbl).wf(),
        old(tbl).consistent(old(st)@),
        apply(old(st)@, a@) == a@,
        apply(old(st)@, b@) == b@,
        vs@.finite(),
        forall|x: Seq<char>| occurs_in(x, a@) ==> vs@.contains(x),
        forall|x: Seq<char>| occurs_in(x, b@) ==> vs@.contains(x),
        forall|x: Seq<char>| vs@.contains(x) ==> !old(st)@.dom().contains(x),
    ensures
        final(st).wf(),
        final(st).resolved(),
        final(tbl).wf(),
        final(tbl).consistent(final(st)@),
        refines(final(st)@, old(st)@),
        old(tbl).n() <= final(tbl).n(),
        forall|i: int| 0 <= i < old(tbl).n() ==> final(tbl).sym_at(i) == old(tbl).sym_at(i),
        forall|i: int, j: int|
            0 <= i < old(tbl).n() && 0 <= j < old(tbl).n() && old(tbl).same_class(i, j)
                ==> final(tbl).same_class(i, j),
        forall|y: Seq<char>| old(st)@.dom().contains(y) ==> final(st)@.dom().contains(y),
        forall|y: Seq<char>|
            final(st)@.dom().contains(y) ==> old(st)@.dom().contains(y) || vs@.contains(y),
        forall|y: Seq<char>, z: Seq<char>|
            final(st)@.dom().contains(y) && #[trigger] occurs_in(z, final(st)@[y])
                ==> (old(st)@.dom().contains(y) && occurs_in(z, old(st)@[y])) || vs@.contains(z),
        final(st)@ == old(st)@ || exists|y: Seq<char>|
            final(st)@.dom().contains(y) && !old(st)@.dom().contains(y) && vs@.contains(y),
        r is Ok ==> apply(final(st)@, a@) == apply(final(st)@, b@),
        a@ == b@ ==> r is Ok && final(st)@ == old(st)@,
        (a@ matches Term::Fun(n1, c1) && b@ matches Term::Fun(n2, c2) && (n1 != n2 || c1.len()
            != c2.len())) ==> r == Err::<(), UnificationFailure>(
            UnificationFailure::StructuralMismatch,
        ) && final(st)@ == old(st)@,
        (a@ is Var && b@ is Fun && occurs_in(a@->Var_0, b@)) ==> r == Err::<
            (),
            UnificationFailure,
        >(UnificationFailure::OccursViolation) && final(st)@ == old(st)@,
        (b@ is Var && a@ is Fun && occurs_in(b@->Var_0, a@)) ==> r == Err::<
            (),
            UnificationFailure,
        >(UnificationFailure::OccursViolation) && final(st)@ == old(st)@,
        r is Ok ==> (forall|m2: Map<Seq<char>, Term>|
            refines(m2, old(st)@) && apply(m2, a@) == apply(m2, b@)
                ==> #[trigger] refines(m2, final(st)@)),
        r is Err ==> (forall|m2: Map<Seq<char>, Term>|
            #[trigger] refines(m2, old(st)@) ==> apply(m2, a@) != apply(m2, b@)),
        r matches Err(e) ==> e == UnificationFailure::StructuralMismatch || e
            == UnificationFailure::OccursViolation,
    decreases vs@.len(), size(a@),
{
    let ghost m0 = st@;
    // fast path: the session already knows the two terms to be equal
    let i1 = tbl.intern(a, Ghost(st@));
    let ghost tbl1 = *tbl;
    let i2 = tbl.intern(b, Ghost(st@));
    let ghost tbl2 = *tbl;
    if tbl.same_class_of(i1, i2) {
        proof {
            assert(tbl.sym_at(i1 as int) == a@ && tbl.sym_at(i2 as int) == b@);
            assert(apply(m0, tbl.sym_at(i1 as int)) == apply(m0, tbl.sym_at(i2 as int)));
            assert(a@ == b@);
            lemma_refines_refl(m0);
            assert forall|m2: Map<Seq<char>, Term>|
                refines(m2, m0) && apply(m2, a@) == apply(m2, b@) implies #[trigger] refines(
                m2,
                st@,
            ) by {}
        }
        return Ok(());
    }
    proof {
        // structurally equal terms intern to one identifier, so a fast-path
        // miss means the terms differ
        if a@ == b@ {
            assert(tbl1.sym_at(i1 as int) == a@);
            assert(tbl2.sym_at(i2 as int) == b@);
            if i2 < i1 {
                assert(tbl2.sym_at(i2 as int) == tbl1.sym_at(i2 as int));
                assert(tbl1.sym_at(i2 as int) != a@);
            }
            if i1 < i2 {
                assert(tbl2.sym_at(i1 as int) == tbl1.sym_at(i1 as int));
                assert(tbl2.sym_at(i1 as int) != b@);
            }
            assert(i1 == i2);
            assert(false);
        }
        lemma_refines_refl(m0);
    }
    match (a, b) {
        (Symbol::Var(x), _) => {
            if name_occurs(x, b) {
                proof {
                    if b@ is Var {
                        assert(b@ == Term::Var(x@));
                        assert(false);
                    }
                    assert forall|m2: Map<Seq<char>, Term>| #[trigger] refines(m2, m0) implies
                        apply(m2, a@) != apply(m2, b@) by {
                        lemma_occurs_size(m2, x@, b@);
                    }
                }
                return Err(UnificationFailure::OccursViolation);
            }
            bind_variable(st, tbl, x, b, a, i1, i2, vs);
            proof {
                assert forall|m2: Map<Seq<char>, Term>|
                    refines(m2, m0) && apply(m2, a@) == apply(m2, b@) implies #[trigger] refines(
                    m2,
                    st@,
                ) by {}
            }
            Ok(())
        },
        (Symbol::Function(_, _), Symbol::Var(y)) => {
            if name_occurs(y, a) {
                proof {
                    assert forall|m2: Map<Seq<char>, Term>| #[trigger] refines(m2, m0) implies
                        apply(m2, a@) != apply(m2, b@) by {
                        lemma_occurs_size(m2, y@, a@);
                    }
                }
                return Err(UnificationFailure::OccursViolation);
            }
            bind_variable(st, tbl, y, a, b, i2, i1, vs);
            proof {
                assert forall|m2: Map<Seq<char>, Term>|
                    refines(m2, m0) && apply(m2, a@) == apply(m2, b@) implies #[trigger] refines(
                    m2,
                    st@,
                ) by {}
            }
            Ok(())
        },
        (Symbol::Function(n1, c1), Symbol::Function(n2, c2)) => {
            if !(*n1 == *n2) || c1.len() != c2.len() {
                proof {
                    assert(a@ matches Term::Fun(an, acs) && an == n1@ && acs.len() == c1@.len());
                    assert(b@ matches Term::Fun(bn, bcs) && bn == n2@ && bcs.len() == c2@.len());
                    assert forall|m2: Map<Seq<char>, Term>| #[trigger] refines(m2, m0) implies
                        apply(m2, a@) != apply(m2, b@) by {
                        lemma_apply_signature(m2, a@);
                        lemma_apply_signature(m2, b@);
                    }
                }
                return Err(UnificationFailure::StructuralMismatch);
            }
            let len = c1.len();
            let mut k: usize = 0;
            while k < len
                invariant
                    k <= len,
                    st.wf(),
                    st.resolved(),
                    tbl.wf(),
                    tbl.consistent(st@),
                    old(tbl).n() <= tbl.n(),
                    i1 < tbl.n(),
                    i2 < tbl.n(),
                    tbl.sym_at(i1 as int) == a@,
                    tbl.sym_at(i2 as int) == b@,
                    forall|i: int|
                        0 <= i < old(tbl).n() ==> tbl.sym_at(i) == old(tbl).sym_at(i),
                    forall|i: int, j: int|
                        0 <= i < old(tbl).n() && 0 <= j < old(tbl).n() && old(tbl).same_class(
                            i,
                            j,
                        ) ==> tbl.same_class(i, j),
                    refines(st@, m0),
                    forall|y: Seq<char>| m0.dom().contains(y) ==> st@.dom().contains(y),
                    forall|y: Seq<char>|
                        st@.dom().contains(y) ==> m0.dom().contains(y) || vs@.contains(y),
                    forall|y: Seq<char>, z: Seq<char>|
                        st@.dom().contains(y) && #[trigger] occurs_in(z, st@[y]) ==> (
                        m0.dom().contains(y) && occurs_in(z, m0[y])) || vs@.contains(z),
                    st@ == m0 || exists|y: Seq<char>|
                        st@.dom().contains(y) && !m0.dom().contains(y) && vs@.contains(y),
                    forall|j: int|
                        0 <= j < k ==> apply(st@, c1@[j]@) == apply(st@, #[trigger] c2@[j]@),
                    forall|m2: Map<Seq<char>, Term>|
                        refines(m2, m0) && apply(m2, a@) == apply(m2, b@)
                            ==> #[trigger] refines(m2, st@),
                decreases len - k,
            {
                let ghost mk = st@;
                proof {
                    assert(forall|m2: Map<Seq<char>, Term>|
                        refines(m2, m0) && apply(m2, a@) == apply(m2, b@)
                            ==> #[trigger] refines(m2, mk));
                }
                let ra = st.substitute(&c1[k]);
                let rb = st.substitute(&c2[k]);
                let ghost vsk = vs@.difference(st@.dom());
                proof {
                    vstd::set_lib::lemma_len_subset(vsk, vs@);
                    lemma_apply_idempotent(mk, c1@[k as int]@);
                    lemma_apply_idempotent(mk, c2@[k as int]@);
                    // the variables of the resolved children stay inside vs
                    assert(a@ matches Term::Fun(an, acs) && acs[k as int] == c1@[k as int]@);
                    assert(b@ matches Term::Fun(bn, bcs) && bcs[k as int] == c2@[k as int]@);
                    assert forall|z: Seq<char>| occurs_in(z, c1@[k as int]@) implies vs@.contains(
                        z,
                    ) by {
                        assert(occurs_in(z, a@));
                    }
                    assert forall|z: Seq<char>| occurs_in(z, c2@[k as int]@) implies vs@.contains(
                        z,
                    ) by {
                        assert(occurs_in(z, b@));
                    }
                    assert forall|x: Seq<char>, z: Seq<char>|
                        occurs_in(x, c1@[k as int]@) && mk.dom().contains(x)
                            && #[trigger] occurs_in(z, mk[x]) implies vs@.contains(z) by {
                        assert(occurs_in(x, a@));
                        assert(vs@.contains(x));
                        assert(!m0.dom().contains(x));
                    }
                    assert forall|x: Seq<char>, z: Seq<char>|
                        occurs_in(x, c2@[k as int]@) && mk.dom().contains(x)
                            && #[trigger] occurs_in(z, mk[x]) implies vs@.contains(z) by {
                        assert(occurs_in(x, b@));
                        assert(vs@.contains(x));
                        assert(!m0.dom().contains(x));
                    }
                    lemma_apply_vars(mk, c1@[k as int]@, vs@);
                    lemma_apply_vars(mk, c2@[k as int]@, vs@);
                    assert forall|z: Seq<char>| occurs_in(z, ra@) implies vsk.contains(z) by {
                        if mk.dom().contains(z) {
                            lemma_apply_occurs(mk, c1@[k as int]@, z);
                        }
                    }
                    assert forall|z: Seq<char>| occurs_in(z, rb@) implies vsk.contains(z) by {
                        if mk.dom().contains(z) {
                            lemma_apply_occurs(mk, c2@[k as int]@, z);
                        }
                    }
                    // termination: either a variable was bound since entry,
                    // or the store is untouched and the child is smaller
                    if mk == m0 {
                        assert(vsk =~= vs@);
                        lemma_fixpoint_children(m0, a@);
                        assert(apply(m0, c1@[k as int]@) == c1@[k as int]@);
                        assert(ra@ == c1@[k as int]@);
                        lemma_child_size(a@->Fun_1, k as int);
                        assert(size(ra@) < size(a@));
                    } else {
                        let y = choose|y: Seq<char>|
                            st@.dom().contains(y) && !m0.dom().contains(y) && vs@.contains(y);
                        vsk.lemma_subset_not_in_lt(vs@, y);
                        assert(vsk.len() < vs@.len());
                    }
                }
                let res = unify_core(st, tbl, &ra, &rb, Ghost(vsk));
                proof {
                    lemma_refines_trans(st@, mk, m0);
                    assert forall|y: Seq<char>|
                        st@.dom().contains(y) implies m0.dom().contains(y) || vs@.contains(
                        y,
                    ) by {
                        if !mk.dom().contains(y) {
                            assert(vsk.contains(y));
                        }
                    }
                    assert forall|y: Seq<char>, z: Seq<char>|
                        st@.dom().contains(y) && #[trigger] occurs_in(z, st@[y]) implies (
                        m0.dom().contains(y) && occurs_in(z, m0[y])) || vs@.contains(z) by {
                        if mk.dom().contains(y) && occurs_in(z, mk[y]) {
                        } else if vsk.contains(z) {
                        }
                    }
                    if st@ != m0 {
                        if st@ == mk {
                            let y = choose|y: Seq<char>|
                                mk.dom().contains(y) && !m0.dom().contains(y) && vs@.contains(y);
                            assert(st@.dom().contains(y) && !m0.dom().contains(y)
                                && vs@.contains(y));
                        } else {
                            let y = choose|y: Seq<char>|
                                st@.dom().contains(y) && !mk.dom().contains(y) && vsk.contains(y);
                            assert(st@.dom().contains(y) && !m0.dom().contains(y)
                                && vs@.contains(y));
                        }
                    }
                }
                match res {
                    Err(e) => {
                        proof {
                            assert(st@ != m0 ==> exists|y: Seq<char>|
                                st@.dom().contains(y) && !m0.dom().contains(y) && vs@.contains(
                                    y,
                                ));
                            assert forall|m2: Map<Seq<char>, Term>| #[trigger] refines(
                                m2,
                                m0,
                            ) implies apply(m2, a@) != apply(m2, b@) by {
                                if apply(m2, a@) == apply(m2, b@) {
                                    assert(refines(m2, mk));
                                    let pa = apply(m2, a@)->Fun_1;
                                    let pb = apply(m2, b@)->Fun_1;
                                    assert(a@ matches Term::Fun(an, acs) && acs[k as int] == c1@[
                                        k as int]@);
                                    assert(b@ matches Term::Fun(bn, bcs) && bcs[k as int] == c2@[
                                        k as int]@);
                                    assert(pa[k as int] == apply(m2, c1@[k as int]@));
                                    assert(pb[k as int] == apply(m2, c2@[k as int]@));
                                    assert(pa == pb);
                                    assert(apply(m2, apply(mk, c1@[k as int]@)) == apply(
                                        m2,
                                        c1@[k as int]@,
                                    ));
                                    assert(apply(m2, apply(mk, c2@[k as int]@)) == apply(
                                        m2,
                                        c2@[k as int]@,
                                    ));
                                    assert(apply(m2, ra@) == apply(m2, rb@));
                                    assert(apply(m2, ra@) != apply(m2, rb@));
                                }
                            }
                        }
                        return Err(e);
                    },
                    Ok(()) => {},
                }
                proof {
                    assert forall|m2: Map<Seq<char>, Term>|
                        refines(m2, m0) && apply(m2, a@) == apply(m2, b@) implies #[trigger] refines(
                        m2,
                        st@,
                    ) by {
                        assert(refines(m2, mk));
                        let pa = apply(m2, a@)->Fun_1;
                        let pb = apply(m2, b@)->Fun_1;
                        assert(a@ matches Term::Fun(an, acs) && acs[k as int] == c1@[k as int]@);
                        assert(b@ matches Term::Fun(bn, bcs) && bcs[k as int] == c2@[k as int]@);
                        assert(pa[k as int] == apply(m2, c1@[k as int]@));
                        assert(pb[k as int] == apply(m2, c2@[k as int]@));
                        assert(pa == pb);
                        assert(apply(m2, apply(mk, c1@[k as int]@)) == apply(m2, c1@[k as int]@));
                        assert(apply(m2, apply(mk, c2@[k as int]@)) == apply(m2, c2@[k as int]@));
                        assert(apply(m2, ra@) == apply(m2, rb@));
                    }
                }
                proof {
                    assert forall|j: int| 0 <= j <= k implies apply(st@, c1@[j]@) == apply(
                        st@,
                        #[trigger] c2@[j]@,
                    ) by {
                        if j < k {
                            assert(apply(st@, apply(mk, c1@[j]@)) == apply(st@, c1@[j]@));
                            assert(apply(st@, apply(mk, c2@[j]@)) == apply(st@, c2@[j]@));
                            assert(apply(mk, c1@[j]@) == apply(mk, c2@[j]@));
                        } else {
                            assert(apply(st@, ra@) == apply(st@, rb@));
                            assert(apply(st@, apply(mk, c1@[j]@)) == apply(st@, c1@[j]@));
                            assert(apply(st@, apply(mk, c2@[j]@)) == apply(st@, c2@[j]@));
                        }
                    }
                }
                k = k + 1;
            }
            proof {
                let la = apply(st@, a@)->Fun_1;
                let lb = apply(st@, b@)->Fun_1;
                assert forall|j: int| 0 <= j < len implies la[j] == lb[j] by {
                    assert(a@ matches Term::Fun(an, acs) && acs[j] == c1@[j]@);
                    assert(b@ matches Term::Fun(bn, bcs) && bcs[j] == c2@[j]@);
                    assert(la[j] == apply(st@, c1@[j]@));
                    assert(lb[j] == apply(st@, c2@[j]@));
                }
                assert(la =~= lb);
                assert(apply(st@, a@) == apply(st@, b@));
            }
            tbl.merge(i1, i2, a, Ghost(st@));
            Ok(())
        },
    }
}

/// Commits the binding `x -> other` (the variable side is `var_sym`) and
/// records the merged equivalence class with the bound term as canonical.
#[verifier::rlimit(100)]
fn bind_variable(
    st: &mut Substitution,
    tbl: &mut SymbolTable,
    x: &String,
    other: &Symbol,
    var_sym: &Symbol,
    var_id: usize,
    other_id: usize,
    vs: Ghost<Set<Seq<char>>>,
)
    requires
        old(st).wf(),
        old(st).resolved(),
        old(tbl).wf(),
        old(tbl).consistent(old(st)@),
        var_sym@ == Term::Var(x@),
        apply(old(st)@, other@) == other@,
        !occurs_in(x@, other@),
        vs@.contains(x@),
        forall|z: Seq<char>| occurs_in(z, other@) ==> vs@.contains(z),
        forall|z: Seq<char>| vs@.contains(z) ==> !old(st)@.dom().contains(z),
        var_id < old(tbl).n(),
        other_id < old(tbl).n(),
        old(tbl).sym_at(var_id as int) == var_sym@,
        old(tbl).sym_at(other_id as int) == other@,
    ensures
        final(st).wf(),
        final(st).resolved(),
        final(tbl).wf(),
        final(tbl).consistent(final(st)@),
        final(st)@ == extend(old(st)@, x@, other@),
        refines(final(st)@, old(st)@),
        old(tbl).n() <= final(tbl).n(),
        forall|i: int| 0 <= i < old(tbl).n() ==> final(tbl).sym_at(i) == old(tbl).sym_at(i),
        forall|i: int, j: int|
            0 <= i < old(tbl).n() && 0 <= j < old(tbl).n() && old(tbl).same_class(i, j)
                ==> final(tbl).same_class(i, j),
        apply(final(st)@, var_sym@) == apply(final(st)@, other@),
        forall|y: Seq<char>| old(st)@.dom().contains(y) ==> final(st)@.dom().contains(y),
        forall|y: Seq<char>|
            final(st)@.dom().contains(y) ==> old(st)@.dom().contains(y) || vs@.contains(y),
        forall|y: Seq<char>, z: Seq<char>|
            final(st)@.dom().contains(y) && #[trigger] occurs_in(z, final(st)@[y])
                ==> (old(st)@.dom().contains(y) && occurs_in(z, old(st)@[y])) || vs@.contains(z),
        exists|y: Seq<char>|
            final(st)@.dom().contains(y) && !old(st)@.dom().contains(y) && vs@.contains(y),
        forall|m2: Map<Seq<char>, Term>|
            refines(m2, old(st)@) && apply(m2, var_sym@) == apply(m2, other@)
                ==> #[trigger] refines(m2, final(st)@),
{
    let ghost m0 = st@;
    let w = other.duplicate();
    let xs = x.clone();
    let res = st.add(Symbol::Var(xs), w);
    proof {
        lemma_apply_id(m0, other@);
    }
    match res {
        Ok(()) => {},
        Err(_) => {
            proof {
                assert(false);
            }
        },
    }
    proof {
        let m1 = st@;
        assert(m1 == extend(m0, x@, other@));
        lemma_refines_extend(m0, x@, other@);
        // the bound variable now dereferences to the bound term, which is
        // untouched by the new binding
        assert(apply(m1, var_sym@) == other@);
        lemma_extend_apply(m0, x@, other@, other@);
        assert(apply(m1, other@) == apply(single(x@, other@), other@));
        assert forall|v: Seq<char>|
            single(x@, other@).dom().contains(v) implies !occurs_in(v, other@) by {}
        lemma_apply_id(single(x@, other@), other@);
        assert(apply(m1, other@) == other@);
        // every class of the table stays equal under the extended store
        assert forall|i: int, j: int|
            0 <= i < tbl.n() && 0 <= j < tbl.n() && tbl.same_class(i, j) implies apply(
            m1,
            #[trigger] tbl.sym_at(i),
        ) == apply(m1, #[trigger] tbl.sym_at(j)) by {
            assert(apply(m0, tbl.sym_at(i)) == apply(m0, tbl.sym_at(j)));
            assert(apply(m1, apply(m0, tbl.sym_at(i))) == apply(m1, tbl.sym_at(i)));
            assert(apply(m1, apply(m0, tbl.sym_at(j))) == apply(m1, tbl.sym_at(j)));
        }
        assert forall|i: int| 0 <= i < tbl.n() implies apply(
            m1,
            #[trigger] tbl.rep_term(i),
        ) == apply(m1, tbl.sym_at(i)) by {
            assert(apply(m0, tbl.rep_term(i)) == apply(m0, tbl.sym_at(i)));
            assert(apply(m1, apply(m0, tbl.rep_term(i))) == apply(m1, tbl.rep_term(i)));
            assert(apply(m1, apply(m0, tbl.sym_at(i))) == apply(m1, tbl.sym_at(i)));
        }
        // variable bookkeeping for the caller
        assert forall|y: Seq<char>, z: Seq<char>|
            m1.dom().contains(y) && #[trigger] occurs_in(z, m1[y]) implies (m0.dom().contains(
            y,
        ) && occurs_in(z, m0[y])) || vs@.contains(z) by {
            if y == x@ {
                assert(m1[y] == other@);
            } else {
                assert(m1[y] == apply(single(x@, other@), m0[y]));
                let vsall = Set::new(
                    |z2: Seq<char>| occurs_in(z2, m0[y]) || vs@.contains(z2),
                );
                lemma_apply_vars(single(x@, other@), m0[y], vsall);
                assert(vsall.contains(z));
            }
        }
        assert(m1.dom().contains(x@) && !m0.dom().contains(x@) && vs@.contains(x@));
        // most generality: any store that refines the old one and already
        // equates the variable with the bound term respects the new binding
        assert forall|m2: Map<Seq<char>, Term>|
            refines(m2, m0) && apply(m2, var_sym@) == apply(m2, other@) implies #[trigger] refines(
            m2,
            m1,
        ) by {
            assert forall|t: Term| #[trigger] apply(m2, apply(m1, t)) == apply(m2, t) by {
                lemma_extend_apply(m0, x@, other@, t);
                assert(apply(m1, t) == apply(single(x@, other@), apply(m0, t)));
                assert forall|v: Seq<char>|
                    single(x@, other@).dom().contains(v) implies apply(m2, Term::Var(v)) == apply(
                    m2,
                    single(x@, other@)[v],
                ) by {
                    assert(single(x@, other@)[x@] == other@);
                }
                lemma_apply_agree(m2, single(x@, other@), apply(m0, t));
                assert(apply(m2, apply(m0, t)) == apply(m2, t));
            }
        }
    }
    tbl.merge(var_id, other_id, other, Ghost(st@));
}

/// The sole entry point of the unification algorithm: computes a most
/// general extension of `store` making `t1` and `t2` equal, or reports why
/// none exists. It succeeds exactly on unifiable pairs: `Ok` if and only
/// if some store refining the given one makes the two terms equal. On
/// success the extended store, applied to both terms, yields one and the
/// same term, every binding already in the store is kept (the result
/// refines the input), and the result is most general: every store that
/// refines the input and equates the two terms refines the result. Terms
/// already equal under the store — in particular `unify(t, t, store)` —
/// succeed without adding any binding; a top-level functor or arity
/// mismatch fails with `StructuralMismatch` and an occurs-check hit fails
/// with `OccursViolation`, both leaving the store unchanged, and no other
/// failure kind is ever reported.
pub fn unify(t1: &Symbol, t2: &Symbol, store: &mut Substitution) -> (r: Result<
    (),
    UnificationFailure,
>)
    requires
        old(store).wf(),
        old(store).resolved(),
    ensures
        final(store).wf(),
        final(store).resolved(),
        refines(final(store)@, old(store)@),
        forall|y: Seq<char>|
            old(store)@.dom().contains(y) ==> final(store)@.dom().contains(y),
        r is Ok ==> apply(final(store)@, t1@) == apply(final(store)@, t2@),
        apply(old(store)@, t1@) == apply(old(store)@, t2@) ==> r is Ok && final(store)@ == old(store)@,
        t1@ == t2@ ==> r is Ok && final(store)@ == old(store)@,
        (apply(old(store)@, t1@) matches Term::Fun(n1, c1) && apply(old(store)@, t2@) matches
            Term::Fun(n2, c2) && (n1 != n2 || c1.len() != c2.len())) ==> r == Err::<
            (),
            UnificationFailure,
        >(UnificationFailure::StructuralMismatch) && final(store)@ == old(store)@,
        (apply(old(store)@, t1@) is Var && apply(old(store)@, t2@) is Fun && occurs_in(
            apply(old(store)@, t1@)->Var_0,
            apply(old(store)@, t2@),
        )) ==> r == Err::<(), UnificationFailure>(UnificationFailure::OccursViolation) && final(store)@ == old(store)@,
        (apply(old(store)@, t2@) is Var && apply(old(store)@, t1@) is Fun && occurs_in(
            apply(old(store)@, t2@)->Var_0,
            apply(old(store)@, t1@),
        )) ==> r == Err::<(), UnificationFailure>(UnificationFailure::OccursViolation) && final(store)@ == old(store)@,
        r is Ok <==> unifiable(old(store)@, t1@, t2@),
        r is Ok ==> (forall|m2: Map<Seq<char>, Term>|
            refines(m2, old(store)@) && apply(m2, t1@) == apply(m2, t2@)
                ==> #[trigger] refines(m2, final(store)@)),
        r matches Err(e) ==> e == UnificationFailure::StructuralMismatch || e
            == UnificationFailure::OccursViolation,
{
    let ghost m0 = store@;
    // dereference both sides through the store
    let u1 = store.substitute(t1);
    let u2 = store.substitute(t2);
    // a fresh session table, scoped to this query, over the variables of
    // the two dereferenced terms
    let mut names: Vec<String> = Vec::new();
    collect_vars(&u1, &mut names);
    let ghost names1 = names@;
    collect_vars(&u2, &mut names);
    let ghost vs = Set::new(|x: Seq<char>| var_listed(names@, x));
    let mut tbl = SymbolTable::new();
    proof {
        lemma_listed_finite(names@);
        lemma_apply_idempotent(m0, t1@);
        lemma_apply_idempotent(m0, t2@);
        lemma_fixpoint_no_dom_vars(m0, u1@);
        lemma_fixpoint_no_dom_vars(m0, u2@);
        assert forall|x: Seq<char>| vs.contains(x) implies !m0.dom().contains(x) by {
            let i = choose|i: int| 0 <= i < names@.len() && names@[i]@ == x;
            if i < names1.len() {
                assert(names@[i] == names1[i]);
                assert(occurs_in(x, u1@));
            } else {
                assert(occurs_in(x, u2@));
            }
        }
        assert forall|x: Seq<char>| occurs_in(x, u1@) implies vs.contains(x) by {
            let i = choose|i: int| 0 <= i < names1.len() && names1[i]@ == x;
            assert(names@[i] == names1[i]);
            assert(var_listed(names@, x));
        }
    }
    let r = unify_core(store, &mut tbl, &u1, &u2, Ghost(vs));
    proof {
        if r is Ok {
            assert(apply(store@, apply(m0, t1@)) == apply(store@, t1@));
            assert(apply(store@, apply(m0, t2@)) == apply(store@, t2@));
            assert(refines(store@, m0) && apply(store@, t1@) == apply(store@, t2@));
            assert(unifiable(m0, t1@, t2@));
            assert forall|m2: Map<Seq<char>, Term>|
                refines(m2, m0) && apply(m2, t1@) == apply(m2, t2@) implies #[trigger] refines(
                m2,
                store@,
            ) by {
                assert(apply(m2, u1@) == apply(m2, apply(m0, t1@)));
                assert(apply(m2, apply(m0, t1@)) == apply(m2, t1@));
                assert(apply(m2, u2@) == apply(m2, apply(m0, t2@)));
                assert(apply(m2, apply(m0, t2@)) == apply(m2, t2@));
            }
        } else {
            if unifiable(m0, t1@, t2@) {
                let m2 = choose|m2: Map<Seq<char>, Term>| #[trigger] refines(m2, m0) && apply(
                    m2,
                    t1@,
                ) == apply(m2, t2@);
                assert(apply(m2, apply(m0, t1@)) == apply(m2, t1@));
                assert(apply(m2, apply(m0, t2@)) == apply(m2, t2@));
                assert(apply(m2, u1@) == apply(m2, u2@));
                assert(apply(m2, u1@) != apply(m2, u2@));
                assert(false);
            }
        }
        if apply(m0, t1@) == apply(m0, t2@) {
            assert(u1@ == u2@);
        }
        if t1@ == t2@ {
            assert(u1@ == u2@);
        }
    }
    r
}

} // verus!

