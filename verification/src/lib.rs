//! First-order term unification: terms built from variables and function
//! applications, a substitution store with occurs-checked bindings, a
//! union-find over term equivalence classes, and the Robinson-style
//! unification algorithm itself.

pub mod disjoint_set;
pub mod subst;
pub mod table;
pub mod term;
pub mod unify;
