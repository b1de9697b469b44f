//! The shape of a Horn clause instance: predicates, clauses, constants and
//! qualifiers, as read by qualifier mining and by the teacher.

use vstd::prelude::*;

use crate::term::{Term, Typ};

verus! {

/// Information about a predicate.
pub struct PrdInfo {
    /// Name of the predicate.
    pub name: String,
    /// Types of its arguments.
    pub sig: Vec<Typ>,
}

/// A predicate application.
pub struct PredApp {
    /// The predicate.
    pub pred: usize,
    /// The arguments.
    pub args: Vec<Term>,
}

/// Information about a clause variable.
pub struct VarInfo {
    /// Type of the variable.
    pub typ: Typ,
    /// Whether the variable appears in the clause.
    pub active: bool,
}

/// A Horn clause: the conjunction of the lhs terms and lhs predicate
/// applications implies the rhs (`None` standing for `false`).
pub struct Clause {
    /// The variables of the clause, `v0`, `v1`, ...
    pub vars: Vec<VarInfo>,
    /// Terms of the lhs.
    pub lhs_terms: Vec<Term>,
    /// Predicate applications of the lhs.
    pub lhs_preds: Vec<PredApp>,
    /// Rhs of the clause.
    pub rhs: Option<PredApp>,
}

/// Forced definition of a predicate.
pub enum TTerms {
    /// The predicate is `true`.
    True,
    /// The predicate is `false`.
    False,
    /// The predicate is defined by the conjunction of some terms over its
    /// arguments and of some applications of other predicates.
    Conj { terms: Vec<Term>, apps: Vec<PredApp> },
}

/// A Horn clause instance.
pub struct Instance {
    /// Highest arity of the predicates.
    pub max_pred_arity: usize,
    /// Integer constants appearing in the clauses.
    pub consts: Vec<i64>,
    /// The predicates.
    pub preds: Vec<PrdInfo>,
    /// Qualifiers given with the instance.
    pub qualifiers: Vec<Term>,
    /// Forced definition of each predicate, if any.
    pub forced: Vec<Option<TTerms>>,
    /// The predicates with a forced definition, in the order in which they
    /// must be defined (a definition is given once those it applies are).
    pub sorted_forced: Vec<usize>,
    /// The clauses.
    pub clauses: Vec<Clause>,
}

/// Whether a predicate is applied in the lhs of a clause.
pub open spec fn in_lhs(c: Clause, pred: usize) -> bool {
    exists|k: int| 0 <= k < c.lhs_preds@.len() && (#[trigger] c.lhs_preds@[k]).pred == pred
}

/// Whether a predicate is the rhs of a clause.
pub open spec fn is_rhs(c: Clause, pred: usize) -> bool {
    c.rhs matches Some(app) && app.pred == pred
}

} // verus!
