use hoice_core::term::{eq, ge, le, ArithOp, RelOp, Term, Typ, Val};

#[test]
fn eval_comparisons() {
    let m = vec![Val::I(3), Val::B(true)];
    assert_eq!(ge(0, 3).eval(&m), Some(Val::B(true)));
    assert_eq!(le(0, 2).eval(&m), Some(Val::B(false)));
    assert_eq!(eq(0, 3).eval(&m), Some(Val::B(true)));
    let gt = Term::Rel(RelOp::Gt, Box::new(Term::Var(0)), Box::new(Term::Int(3)));
    assert_eq!(gt.eval(&m), Some(Val::B(false)));
}

#[test]
fn eval_unknown_and_type_errors() {
    let m = vec![Val::N, Val::B(true)];
    // Unknown variable value.
    assert_eq!(ge(0, 3).bool_eval(&m), Ok(None));
    // Variable out of the model.
    assert_eq!(ge(5, 3).bool_eval(&m), Ok(None));
    // Integer comparison on a boolean.
    assert_eq!(ge(1, 3).bool_eval(&m), Err(()));
    // An integer term is not a boolean.
    assert_eq!(Term::Int(1).bool_eval(&m), Err(()));
}

#[test]
fn eval_connectives() {
    let m = vec![Val::I(1), Val::I(-1)];
    let a = ge(0, 0);
    let b = ge(1, 0);
    let and = Term::And(Box::new(a.clone()), Box::new(b.clone()));
    let or = Term::Or(Box::new(a.clone()), Box::new(b.clone()));
    let not = Term::Not(Box::new(b));
    assert_eq!(and.bool_eval(&m), Ok(Some(false)));
    assert_eq!(or.bool_eval(&m), Ok(Some(true)));
    assert_eq!(not.bool_eval(&m), Ok(Some(true)));
}

#[test]
fn highest_var_and_bool() {
    let t = Term::And(Box::new(ge(2, 0)), Box::new(le(7, 1)));
    assert_eq!(t.highest_var(), Some(7));
    assert_eq!(Term::Int(3).highest_var(), None);
    assert_eq!(Term::Bool(false).bool(), Some(false));
    assert_eq!(ge(0, 0).bool(), None);
}

#[test]
fn structural_equality_and_clone() {
    let t = Term::Or(Box::new(ge(0, 1)), Box::new(Term::Not(Box::new(eq(1, -2)))));
    assert!(t.equals(&t.clone()));
    assert!(!t.equals(&ge(0, 1)));
    assert!(!ge(0, 1).equals(&le(0, 1)));
}

#[test]
fn default_values() {
    assert_eq!(Typ::Int.default_val(), Val::I(0));
    assert_eq!(Typ::Bool.default_val(), Val::B(true));
}

fn arith(op: ArithOp, a: Term, b: Term) -> Term {
    Term::Arith(op, Box::new(a), Box::new(b))
}

#[test]
fn eval_arithmetic() {
    let m = vec![Val::I(7), Val::I(-3), Val::N];
    assert_eq!(arith(ArithOp::Add, Term::Var(0), Term::Var(1)).eval(&m), Some(Val::I(4)));
    assert_eq!(arith(ArithOp::Sub, Term::Var(0), Term::Var(1)).eval(&m), Some(Val::I(10)));
    assert_eq!(arith(ArithOp::Mul, Term::Var(0), Term::Var(1)).eval(&m), Some(Val::I(-21)));
    assert_eq!(arith(ArithOp::Add, Term::Var(0), Term::Var(2)).eval(&m), Some(Val::N));
    // Overflow and type errors make evaluation fail.
    assert_eq!(arith(ArithOp::Add, Term::Int(i64::MAX), Term::Int(1)).eval(&m), None);
    assert_eq!(arith(ArithOp::Mul, Term::Bool(true), Term::Int(1)).eval(&m), None);
    // `v_0 + v_1 >= 4`, as the qualifiers over two variables.
    let q = Term::Rel(RelOp::Ge, Box::new(arith(ArithOp::Add, Term::Var(0), Term::Var(1))), Box::new(Term::Int(4)));
    assert_eq!(q.bool_eval(&m), Ok(Some(true)));
    assert_eq!(q.highest_var(), Some(1));
}
