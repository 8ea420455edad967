use vstd::prelude::*;

verus! {

/// The mathematical picture of a term: names are character sequences and a
/// function application carries an ordered sequence of child terms.
pub enum Term {
    Var(Seq<char>),
    Fun(Seq<char>, Seq<Term>),
}

/// A first-order term. `Var(name)` is a placeholder; two variables are the
/// same entity exactly when their names are equal. `Function(name, children)`
/// is an applied function symbol; its name together with the number of
/// children forms its signature, and the order of children is significant.
pub enum Symbol {
    Var(String),
    Function(String, Vec<Symbol>),
}

impl View for Symbol {
    type V = Term;

    open spec fn view(&self) -> Term
        decreases self,
    {
        match self {
            Symbol::Var(s) => Term::Var(s@),
            Symbol::Function(n, cs) => Term::Fun(
                n@,
                Seq::new(cs@.len(), |i: int| if 0 <= i < cs@.len() { cs@[i].view() } else { Term::Var(Seq::empty()) }),
            ),
        }
    }
}

/// Applying a substitution map to a term: every variable in the domain of
/// `m` is replaced by its image, in one pass; everything else is kept.
pub open spec fn apply(m: Map<Seq<char>, Term>, t: Term) -> Term
    decreases t,
{
    match t {
        Term::Var(x) => if m.dom().contains(x) {
            m[x]
        } else {
            Term::Var(x)
        },
        Term::Fun(n, cs) => Term::Fun(
            n,
            Seq::new(cs.len(), |i: int| if 0 <= i < cs.len() { apply(m, cs[i]) } else { Term::Var(Seq::empty()) }),
        ),
    }
}

/// `x` names a variable occurring somewhere inside `t`.
pub open spec fn occurs_in(x: Seq<char>, t: Term) -> bool
    decreases t,
{
    match t {
        Term::Var(y) => x == y,
        Term::Fun(_, cs) => exists|i: int| 0 <= i < cs.len() && occurs_in(x, cs[i]),
    }
}


/// Combined size of a sequence of terms.
pub open spec fn size_of_children(cs: Seq<Term>) -> nat
    decreases cs,
{
    if cs.len() == 0 {
        0
    } else {
        size_of_children(cs.drop_last()) + size(cs.last())
    }
}

/// The number of variable and function nodes in a term.
pub open spec fn size(t: Term) -> nat
    decreases t,
{
    match t {
        Term::Var(_) => 1,
        Term::Fun(_, cs) => 1 + size_of_children(cs),
    }
}

/// Each child is strictly smaller than the whole term.
pub proof fn lemma_child_size(cs: Seq<Term>, i: int)
    requires
        0 <= i < cs.len(),
    ensures
        size(cs[i]) <= size_of_children(cs),
    decreases cs.len(),
{
    if i == cs.len() - 1 {
        assert(cs.last() == cs[i]);
    } else {
        lemma_child_size(cs.drop_last(), i);
        assert(cs.drop_last()[i] == cs[i]);
    }
}

impl Symbol {
    /// Structure-preserving deep copy. Unification never mutates a `Symbol`
    /// in place, so shared subterms are reproduced rather than aliased.
    #[verifier::loop_isolation(false)]
    pub fn duplicate(&self) -> (r: Symbol)
        ensures
            r@ == self@,
        decreases self,
    {
        match self {
            Symbol::Var(s) => Symbol::Var(s.clone()),
            Symbol::Function(n, cs) => {
                let mut out: Vec<Symbol> = Vec::new();
                let mut i: usize = 0;
                while i < cs.len()
                    invariant
                        i <= cs.len(),
                        out@.len() == i as int,
                        forall|j: int| 0 <= j < i ==> out@[j]@ == cs@[j]@,
                    decreases cs.len() - i,
                {
                    let c = cs[i].duplicate();
                    out.push(c);
                    i = i + 1;
                }
                let r = Symbol::Function(n.clone(), out);
                proof {
                    assert(r@ matches Term::Fun(rn, rcs) && self@ matches Term::Fun(sn, scs)
                        && rn == sn && rcs =~= scs);
                }
                r
            },
        }
    }
}

/// The term is a variable (as opposed to a function application).
pub fn is_var(t: &Symbol) -> (r: bool)
    ensures
        r == (t@ is Var),
{
    match t {
        Symbol::Var(_) => true,
        _ => false,
    }
}

/// Structural equality of two terms: same shape, same names, children
/// pairwise equal in order.
#[verifier::loop_isolation(false)]
pub fn sym_eq(a: &Symbol, b: &Symbol) -> (r: bool)
    ensures
        r == (a@ == b@),
    decreases a,
{
    match (a, b) {
        (Symbol::Var(x), Symbol::Var(y)) => *x == *y,
        (Symbol::Function(n1, cs1), Symbol::Function(n2, cs2)) => {
            if !(*n1 == *n2) {
                return false;
            }
            if cs1.len() != cs2.len() {
                proof {
                    assert(a@ matches Term::Fun(an, acs) && acs.len() == cs1@.len());
                    assert(b@ matches Term::Fun(bn, bcs) && bcs.len() == cs2@.len());
                }
                return false;
            }
            let mut i: usize = 0;
            while i < cs1.len()
                invariant
                    i <= cs1.len(),
                    cs1@.len() == cs2@.len(),
                    n1@ == n2@,
                    a@ == Symbol::Function(*n1, *cs1)@,
                    b@ == Symbol::Function(*n2, *cs2)@,
                    forall|j: int| 0 <= j < i ==> cs1@[j]@ == cs2@[j]@,
                decreases cs1.len() - i,
            {
                if !sym_eq(&cs1[i], &cs2[i]) {
                    proof {
                        assert(a@ matches Term::Fun(an, acs) && acs[i as int] == cs1@[i as int]@);
                        assert(b@ matches Term::Fun(bn, bcs) && bcs[i as int] == cs2@[i as int]@);
                    }
                    return false;
                }
                i = i + 1;
            }
            proof {
                assert(a@ matches Term::Fun(an, acs) && b@ matches Term::Fun(bn, bcs)
                    && acs =~= bcs);
            }
            true
        },
        _ => false,
    }
}

/// The occurs-check test: `t1` is a variable and that variable occurs
/// somewhere inside `t2` (at the root included). Binding such a variable to
/// `t2` would create an infinite, cyclic term.
pub fn occur(t1: &Symbol, t2: &Symbol) -> (r: bool)
    ensures
        r == (t1@ matches Term::Var(x) && occurs_in(x, t2@)),
{
    match t1 {
        Symbol::Var(s) => name_occurs(s, t2),
        _ => false,
    }
}

/// The variable named `x` occurs somewhere inside `t`.
#[verifier::loop_isolation(false)]
pub fn name_occurs(x: &String, t: &Symbol) -> (r: bool)
    ensures
        r == occurs_in(x@, t@),
    decreases t,
{
    match t {
        Symbol::Var(y) => *x == *y,
        Symbol::Function(_, cs) => {
            let mut i: usize = 0;
            while i < cs.len()
                invariant
                    i <= cs.len(),
                    forall|j: int| 0 <= j < i ==> !occurs_in(x@, cs@[j]@),
                decreases cs.len() - i,
            {
                if name_occurs(x, &cs[i]) {
                    proof {
                        assert(t@ matches Term::Fun(tn, tcs) && tcs[i as int] == cs@[i as int]@
                            && occurs_in(x@, tcs[i as int]));
                    }
                    return true;
                }
                i = i + 1;
            }
            false
        },
    }
}

} // verus!
