//! Terms, values and types: what qualifiers and candidates are made of.

use vstd::prelude::*;

verus! {

/// Types of variables and values.
#[derive(Clone, Copy, Debug, PartialEq, Eq, Structural)]
pub enum Typ {
    Int,
    Bool,
}

/// Values of variables in samples and models.
#[derive(Clone, Copy, Debug, PartialEq, Eq, Structural)]
pub enum Val {
    /// A boolean.
    B(bool),
    /// An integer.
    I(i64),
    /// No value (unknown).
    N,
}

/// Comparison operators.
#[derive(Clone, Copy, Debug, PartialEq, Eq, Structural)]
pub enum RelOp {
    Ge,
    Le,
    Gt,
    Lt,
    Eq,
}

/// Arithmetic operators.
#[derive(Clone, Copy, Debug, PartialEq, Eq, Structural)]
pub enum ArithOp {
    Add,
    Sub,
    Mul,
}

/// Terms over the variables `v0`, `v1`, ... of a predicate or a clause.
#[derive(Debug)]
pub enum Term {
    /// Variable of the given index.
    Var(usize),
    /// Integer constant.
    Int(i64),
    /// Boolean constant.
    Bool(bool),
    /// Arithmetic operation.
    Arith(ArithOp, Box<Term>, Box<Term>),
    /// Comparison.
    Rel(RelOp, Box<Term>, Box<Term>),
    /// Negation.
    Not(Box<Term>),
    /// Conjunction.
    And(Box<Term>, Box<Term>),
    /// Disjunction.
    Or(Box<Term>, Box<Term>),
}

/// Default value of a type.
pub open spec fn spec_default_val(typ: Typ) -> Val {
    match typ {
        Typ::Int => Val::I(0),
        Typ::Bool => Val::B(true),
    }
}

impl Typ {
    /// Default value of a type: `0` for integers, `true` for booleans.
    pub fn default_val(&self) -> (v: Val)
        ensures
            v == spec_default_val(*self),
    {
        match self {
            Typ::Int => Val::I(0),
            Typ::Bool => Val::B(true),
        }
    }
}

/// Result of a comparison between two values; `None` on a type error.
pub open spec fn spec_rel_vals(op: RelOp, a: Val, b: Val) -> Option<Val> {
    match (a, b) {
        (Val::I(x), Val::I(y)) => Some(
            Val::B(
                match op {
                    RelOp::Ge => x >= y,
                    RelOp::Le => x <= y,
                    RelOp::Gt => x > y,
                    RelOp::Lt => x < y,
                    RelOp::Eq => x == y,
                },
            ),
        ),
        (Val::B(x), Val::B(y)) => match op {
            RelOp::Eq => Some(Val::B(x == y)),
            _ => None,
        },
        (Val::N, Val::B(_)) => match op {
            RelOp::Eq => Some(Val::N),
            _ => None,
        },
        (Val::B(_), Val::N) => match op {
            RelOp::Eq => Some(Val::N),
            _ => None,
        },
        (Val::N, _) => Some(Val::N),
        (_, Val::N) => Some(Val::N),
        _ => None,
    }
}

/// Result of an arithmetic operation; `None` on a type error or when the
/// result does not fit an `i64`.
pub open spec fn spec_arith_vals(op: ArithOp, a: Val, b: Val) -> Option<Val> {
    match (a, b) {
        (Val::I(x), Val::I(y)) => {
            let r: int = match op {
                ArithOp::Add => x + y,
                ArithOp::Sub => x - y,
                ArithOp::Mul => x * y,
            };
            if i64::MIN <= r <= i64::MAX {
                Some(Val::I(r as i64))
            } else {
                None
            }
        },
        (Val::N, Val::I(_)) | (Val::I(_), Val::N) | (Val::N, Val::N) => Some(Val::N),
        _ => None,
    }
}

/// Result of a binary boolean connective; `None` on a type error.
pub open spec fn spec_bool_op(is_and: bool, a: Option<Val>, b: Option<Val>) -> Option<Val> {
    match (a, b) {
        (Some(Val::B(x)), Some(Val::B(y))) => Some(Val::B(if is_and { x && y } else { x || y })),
        (Some(Val::B(_)), Some(Val::N)) => Some(Val::N),
        (Some(Val::N), Some(Val::B(_))) => Some(Val::N),
        (Some(Val::N), Some(Val::N)) => Some(Val::N),
        _ => None,
    }
}

/// Value of a term under a model: `Val::N` for variables the model leaves
/// unknown, `None` on a type error.
pub open spec fn spec_eval(t: Term, m: Seq<Val>) -> Option<Val>
    decreases t,
{
    match t {
        Term::Var(v) => Some(if v < m.len() { m[v as int] } else { Val::N }),
        Term::Int(i) => Some(Val::I(i)),
        Term::Bool(b) => Some(Val::B(b)),
        Term::Arith(op, l, r) => match (spec_eval(*l, m), spec_eval(*r, m)) {
            (Some(a), Some(b)) => spec_arith_vals(op, a, b),
            _ => None,
        },
        Term::Rel(op, l, r) => match (spec_eval(*l, m), spec_eval(*r, m)) {
            (Some(a), Some(b)) => spec_rel_vals(op, a, b),
            _ => None,
        },
        Term::Not(a) => match spec_eval(*a, m) {
            Some(Val::B(b)) => Some(Val::B(!b)),
            Some(Val::N) => Some(Val::N),
            _ => None,
        },
        Term::And(a, b) => spec_bool_op(true, spec_eval(*a, m), spec_eval(*b, m)),
        Term::Or(a, b) => spec_bool_op(false, spec_eval(*a, m), spec_eval(*b, m)),
    }
}

/// Highest variable index occurring in a term, `None` if it has no variable.
pub open spec fn spec_highest_var(t: Term) -> Option<usize>
    decreases t,
{
    match t {
        Term::Var(v) => Some(v),
        Term::Int(_) => None,
        Term::Bool(_) => None,
        Term::Arith(_, l, r) => max_opt(spec_highest_var(*l), spec_highest_var(*r)),
        Term::Rel(_, l, r) => max_opt(spec_highest_var(*l), spec_highest_var(*r)),
        Term::Not(a) => spec_highest_var(*a),
        Term::And(a, b) => max_opt(spec_highest_var(*a), spec_highest_var(*b)),
        Term::Or(a, b) => max_opt(spec_highest_var(*a), spec_highest_var(*b)),
    }
}

/// Maximum of two optional indices.
pub open spec fn max_opt(a: Option<usize>, b: Option<usize>) -> Option<usize> {
    match (a, b) {
        (Some(x), Some(y)) => Some(if x >= y { x } else { y }),
        (Some(x), None) => Some(x),
        (None, y) => y,
    }
}

fn rel_vals(op: RelOp, a: Val, b: Val) -> (r: Option<Val>)
    ensures
        r == spec_rel_vals(op, a, b),
{
    match (a, b) {
        (Val::I(x), Val::I(y)) => Some(
            Val::B(
                match op {
                    RelOp::Ge => x >= y,
                    RelOp::Le => x <= y,
                    RelOp::Gt => x > y,
                    RelOp::Lt => x < y,
                    RelOp::Eq => x == y,
                },
            ),
        ),
        (Val::B(x), Val::B(y)) => match op {
            RelOp::Eq => Some(Val::B(x == y)),
            _ => None,
        },
        (Val::N, Val::B(_)) => match op {
            RelOp::Eq => Some(Val::N),
            _ => None,
        },
        (Val::B(_), Val::N) => match op {
            RelOp::Eq => Some(Val::N),
            _ => None,
        },
        (Val::N, _) => Some(Val::N),
        (_, Val::N) => Some(Val::N),
        _ => None,
    }
}

fn arith_vals(op: ArithOp, a: Val, b: Val) -> (r: Option<Val>)
    ensures
        r == spec_arith_vals(op, a, b),
{
    match (a, b) {
        (Val::I(x), Val::I(y)) => {
            let r = match op {
                ArithOp::Add => x.checked_add(y),
                ArithOp::Sub => x.checked_sub(y),
                ArithOp::Mul => x.checked_mul(y),
            };
            match r {
                Some(v) => Some(Val::I(v)),
                None => None,
            }
        },
        (Val::N, Val::I(_)) | (Val::I(_), Val::N) | (Val::N, Val::N) => Some(Val::N),
        _ => None,
    }
}

fn bool_op(is_and: bool, a: Option<Val>, b: Option<Val>) -> (r: Option<Val>)
    ensures
        r == spec_bool_op(is_and, a, b),
{
    match (a, b) {
        (Some(Val::B(x)), Some(Val::B(y))) => Some(Val::B(if is_and { x && y } else { x || y })),
        (Some(Val::B(_)), Some(Val::N)) => Some(Val::N),
        (Some(Val::N), Some(Val::B(_))) => Some(Val::N),
        (Some(Val::N), Some(Val::N)) => Some(Val::N),
        _ => None,
    }
}

fn max_opt_exec(a: Option<usize>, b: Option<usize>) -> (r: Option<usize>)
    ensures
        r == max_opt(a, b),
{
    match (a, b) {
        (Some(x), Some(y)) => Some(if x >= y { x } else { y }),
        (Some(x), None) => Some(x),
        (None, y) => y,
    }
}

impl Clone for Term {
    fn clone(&self) -> (r: Self)
        ensures
            r == *self,
        decreases self,
    {
        match self {
            Term::Var(v) => Term::Var(*v),
            Term::Int(i) => Term::Int(*i),
            Term::Bool(b) => Term::Bool(*b),
            Term::Arith(op, l, r) => Term::Arith(*op, Box::new((**l).clone()), Box::new((**r).clone())),
            Term::Rel(op, l, r) => Term::Rel(*op, Box::new((**l).clone()), Box::new((**r).clone())),
            Term::Not(a) => Term::Not(Box::new((**a).clone())),
            Term::And(a, b) => Term::And(Box::new((**a).clone()), Box::new((**b).clone())),
            Term::Or(a, b) => Term::Or(Box::new((**a).clone()), Box::new((**b).clone())),
        }
    }
}

impl Term {
    /// Evaluates the term under a model.
    pub fn eval(&self, m: &Vec<Val>) -> (r: Option<Val>)
        ensures
            r == spec_eval(*self, m@),
        decreases self,
    {
        match self {
            Term::Var(v) => Some(if *v < m.len() { m[*v] } else { Val::N }),
            Term::Int(i) => Some(Val::I(*i)),
            Term::Bool(b) => Some(Val::B(*b)),
            Term::Arith(op, l, r) => {
                let a = l.eval(m);
                let b = r.eval(m);
                match (a, b) {
                    (Some(a), Some(b)) => arith_vals(*op, a, b),
                    _ => None,
                }
            },
            Term::Rel(op, l, r) => {
                let a = l.eval(m);
                let b = r.eval(m);
                match (a, b) {
                    (Some(a), Some(b)) => rel_vals(*op, a, b),
                    _ => None,
                }
            },
            Term::Not(a) => match a.eval(m) {
                Some(Val::B(b)) => Some(Val::B(!b)),
                Some(Val::N) => Some(Val::N),
                _ => None,
            },
            Term::And(a, b) => bool_op(true, a.eval(m), b.eval(m)),
            Term::Or(a, b) => bool_op(false, a.eval(m), b.eval(m)),
        }
    }

    /// Evaluates a boolean term: `Ok(Some(b))` when it evaluates to `b`,
    /// `Ok(None)` when the model does not decide it, `Err(())` on a type
    /// error.
    pub fn bool_eval(&self, m: &Vec<Val>) -> (r: Result<Option<bool>, ()>)
        ensures
            r == (match spec_eval(*self, m@) {
                Some(Val::B(b)) => Ok(Some(b)),
                Some(Val::N) => Ok(None),
                _ => Err(()),
            }),
    {
        match self.eval(m) {
            Some(Val::B(b)) => Ok(Some(b)),
            Some(Val::N) => Ok(None),
            _ => Err(()),
        }
    }

    /// Highest variable index in the term.
    pub fn highest_var(&self) -> (r: Option<usize>)
        ensures
            r == spec_highest_var(*self),
        decreases self,
    {
        match self {
            Term::Var(v) => Some(*v),
            Term::Int(_) => None,
            Term::Bool(_) => None,
            Term::Arith(_, l, r) => max_opt_exec(l.highest_var(), r.highest_var()),
            Term::Rel(_, l, r) => max_opt_exec(l.highest_var(), r.highest_var()),
            Term::Not(a) => a.highest_var(),
            Term::And(a, b) => max_opt_exec(a.highest_var(), b.highest_var()),
            Term::Or(a, b) => max_opt_exec(a.highest_var(), b.highest_var()),
        }
    }

    /// The boolean this term is, if it is a boolean constant.
    pub fn bool(&self) -> (r: Option<bool>)
        ensures
            r == (match *self {
                Term::Bool(b) => Some(b),
                _ => None,
            }),
    {
        match self {
            Term::Bool(b) => Some(*b),
            _ => None,
        }
    }

    /// Structural equality of terms.
    pub fn equals(&self, other: &Term) -> (r: bool)
        ensures
            r == (*self == *other),
        decreases self,
    {
        match (self, other) {
            (Term::Var(a), Term::Var(b)) => *a == *b,
            (Term::Int(a), Term::Int(b)) => *a == *b,
            (Term::Bool(a), Term::Bool(b)) => *a == *b,
            (Term::Arith(o1, l1, r1), Term::Arith(o2, l2, r2)) => {
                *o1 == *o2 && l1.equals(l2) && r1.equals(r2)
            },
            (Term::Rel(o1, l1, r1), Term::Rel(o2, l2, r2)) => {
                *o1 == *o2 && l1.equals(l2) && r1.equals(r2)
            },
            (Term::Not(a1), Term::Not(a2)) => a1.equals(a2),
            (Term::And(a1, b1), Term::And(a2, b2)) => a1.equals(a2) && b1.equals(b2),
            (Term::Or(a1, b1), Term::Or(a2, b2)) => a1.equals(a2) && b1.equals(b2),
            _ => false,
        }
    }
}

/// The term `v<var> >= cst`.
pub fn ge(var: usize, cst: i64) -> (t: Term)
    ensures
        t == Term::Rel(RelOp::Ge, Box::new(Term::Var(var)), Box::new(Term::Int(cst))),
{
    Term::Rel(RelOp::Ge, Box::new(Term::Var(var)), Box::new(Term::Int(cst)))
}

/// The term `v<var> <= cst`.
pub fn le(var: usize, cst: i64) -> (t: Term)
    ensures
        t == Term::Rel(RelOp::Le, Box::new(Term::Var(var)), Box::new(Term::Int(cst))),
{
    Term::Rel(RelOp::Le, Box::new(Term::Var(var)), Box::new(Term::Int(cst)))
}

/// The term `v<var> = cst`.
pub fn eq(var: usize, cst: i64) -> (t: Term)
    ensures
        t == Term::Rel(RelOp::Eq, Box::new(Term::Var(var)), Box::new(Term::Int(cst))),
{
    Term::Rel(RelOp::Eq, Box::new(Term::Var(var)), Box::new(Term::Int(cst)))
}


/// Comparing two integers gives the boolean that the comparison means:
/// `<` is strict (false on equal integers), `<=` is not, and so on; each
/// operator is the converse or the negation of another.
pub proof fn law_int_comparisons(x: i64, y: i64)
    ensures
        spec_rel_vals(RelOp::Lt, Val::I(x), Val::I(y)) == Some(Val::B(x < y)),
        spec_rel_vals(RelOp::Le, Val::I(x), Val::I(y)) == Some(Val::B(x <= y)),
        spec_rel_vals(RelOp::Gt, Val::I(x), Val::I(y)) == Some(Val::B(x > y)),
        spec_rel_vals(RelOp::Ge, Val::I(x), Val::I(y)) == Some(Val::B(x >= y)),
        spec_rel_vals(RelOp::Eq, Val::I(x), Val::I(y)) == Some(Val::B(x == y)),
        spec_rel_vals(RelOp::Lt, Val::I(x), Val::I(y)) == spec_rel_vals(RelOp::Gt, Val::I(y), Val::I(x)),
        spec_rel_vals(RelOp::Le, Val::I(x), Val::I(y)) == spec_rel_vals(RelOp::Ge, Val::I(y), Val::I(x)),
        spec_rel_vals(RelOp::Lt, Val::I(x), Val::I(x)) == Some(Val::B(false)),
        spec_rel_vals(RelOp::Gt, Val::I(x), Val::I(x)) == Some(Val::B(false)),
{
}

/// A comparison term whose sides evaluate to integers `x` and `y` evaluates
/// to the boolean the comparison means on `x` and `y`.
pub proof fn law_eval_comparison(op: RelOp, l: Term, r: Term, m: Seq<Val>, x: i64, y: i64)
    requires
        spec_eval(l, m) == Some(Val::I(x)),
        spec_eval(r, m) == Some(Val::I(y)),
    ensures
        op == RelOp::Lt ==> spec_eval(Term::Rel(op, Box::new(l), Box::new(r)), m) == Some(Val::B(x < y)),
        op == RelOp::Le ==> spec_eval(Term::Rel(op, Box::new(l), Box::new(r)), m) == Some(Val::B(x <= y)),
        op == RelOp::Gt ==> spec_eval(Term::Rel(op, Box::new(l), Box::new(r)), m) == Some(Val::B(x > y)),
        op == RelOp::Ge ==> spec_eval(Term::Rel(op, Box::new(l), Box::new(r)), m) == Some(Val::B(x >= y)),
        op == RelOp::Eq ==> spec_eval(Term::Rel(op, Box::new(l), Box::new(r)), m) == Some(Val::B(x == y)),
{
}


/// Arithmetic on integers gives the sum, difference or product when it fits
/// an `i64`, and nothing otherwise.
pub proof fn law_int_arith(x: i64, y: i64)
    ensures
        spec_arith_vals(ArithOp::Add, Val::I(x), Val::I(y)) == if i64::MIN <= x + y <= i64::MAX {
            Some(Val::I((x + y) as i64))
        } else {
            None
        },
        spec_arith_vals(ArithOp::Sub, Val::I(x), Val::I(y)) == if i64::MIN <= x - y <= i64::MAX {
            Some(Val::I((x - y) as i64))
        } else {
            None
        },
        spec_arith_vals(ArithOp::Mul, Val::I(x), Val::I(y)) == if i64::MIN <= x * y <= i64::MAX {
            Some(Val::I((x * y) as i64))
        } else {
            None
        },
{
}

} // verus!
