use hoice_core::instance::{Clause, PrdInfo, PredApp, VarInfo};
use hoice_core::smt2::{parse_ident, parse_value, write_clause, write_conj, write_int, write_term, write_typ, write_var};
use hoice_core::term::{eq, ge, ArithOp, RelOp, Term, Typ, Val};

fn text(bytes: Vec<u8>) -> String {
    String::from_utf8(bytes).unwrap()
}

#[test]
fn parse_ident_reads_variables() {
    assert_eq!(parse_ident(b"v0"), Some((0, 2)));
    assert_eq!(parse_ident(b"v7 "), Some((7, 2)));
    assert_eq!(parse_ident(b"v123 rest"), Some((123, 4)));
    assert_eq!(parse_ident(b"v007"), Some((7, 4)));
}

#[test]
fn parse_ident_rejects_other_symbols() {
    assert_eq!(parse_ident(b""), None);
    assert_eq!(parse_ident(b"v"), None);
    assert_eq!(parse_ident(b"v_0"), None);
    assert_eq!(parse_ident(b"vx"), None);
    assert_eq!(parse_ident(b"w1"), None);
    assert_eq!(parse_ident(b"v99999999999999999999999999"), None);
}

#[test]
fn var_names_round_trip() {
    for v in [0usize, 9, 10, 4711, usize::MAX] {
        let mut out = vec![];
        write_var(&mut out, v);
        let len = out.len();
        out.push(b')');
        assert_eq!(parse_ident(&out), Some((v, len)));
    }
}

#[test]
fn write_terms() {
    let mut out = vec![];
    write_term(&mut out, &ge(0, 3));
    assert_eq!(text(out), "(>= v0 3)");
    let mut out = vec![];
    let t = Term::And(
        Box::new(Term::Not(Box::new(eq(2, -5)))),
        Box::new(Term::Or(
            Box::new(Term::Bool(true)),
            Box::new(Term::Rel(RelOp::Lt, Box::new(Term::Var(1)), Box::new(Term::Int(0)))),
        )),
    );
    write_term(&mut out, &t);
    assert_eq!(text(out), "(and (not (= v2 (- 5))) (or true (< v1 0)))");
}

#[test]
fn write_extreme_ints() {
    let mut out = vec![];
    write_int(&mut out, i64::MIN);
    assert_eq!(text(out), "(- 9223372036854775808)");
    let mut out = vec![];
    write_int(&mut out, i64::MAX);
    assert_eq!(text(out), "9223372036854775807");
}

#[test]
fn parse_values() {
    assert_eq!(parse_value(b"true"), Some((Val::B(true), 4)));
    assert_eq!(parse_value(b"false)"), Some((Val::B(false), 5)));
    assert_eq!(parse_value(b"42"), Some((Val::I(42), 2)));
    assert_eq!(parse_value(b"(- 42) "), Some((Val::I(-42), 6)));
    assert_eq!(parse_value(b"(- 9223372036854775808)"), Some((Val::I(i64::MIN), 23)));
    assert_eq!(parse_value(b"9223372036854775808"), None);
    assert_eq!(parse_value(b"(- 1"), None);
    assert_eq!(parse_value(b"x"), None);
}

#[test]
fn ints_round_trip() {
    for i in [0i64, 1, -1, 123456, -98765, i64::MIN, i64::MAX] {
        let mut out = vec![];
        write_int(&mut out, i);
        let len = out.len();
        out.push(b' ');
        assert_eq!(parse_value(&out), Some((Val::I(i), len)));
    }
}

#[test]
fn write_types() {
    let mut out = vec![];
    write_typ(&mut out, Typ::Int);
    out.push(b' ');
    write_typ(&mut out, Typ::Bool);
    assert_eq!(text(out), "Int Bool");
}

#[test]
fn write_clause_inlines_known_predicates() {
    let preds = vec![
        PrdInfo { name: "p".to_string(), sig: vec![Typ::Int] },
        PrdInfo { name: "q".to_string(), sig: vec![Typ::Int] },
        PrdInfo { name: "r".to_string(), sig: vec![] },
    ];
    let c = Clause {
        vars: vec![VarInfo { typ: Typ::Int, active: true }],
        lhs_terms: vec![ge(0, 1)],
        lhs_preds: vec![
            PredApp { pred: 0, args: vec![Term::Var(0)] },
            PredApp { pred: 1, args: vec![Term::Var(0)] },
            PredApp { pred: 2, args: vec![] },
        ],
        rhs: Some(PredApp { pred: 1, args: vec![Term::Int(2)] }),
    };
    let mut out = vec![];
    write_clause(&mut out, &c, &vec![true, false, false], &vec![false, false, false], &preds);
    assert_eq!(text(out), "(not (=> (and true (>= v0 1) (q v0) r) (q 2)))");
    let mut out = vec![];
    write_clause(&mut out, &c, &vec![false, false, false], &vec![false, true, false], &preds);
    assert_eq!(text(out), "(not (=> (and true (>= v0 1) (p v0) false r) false))");
    let d = Clause { vars: vec![], lhs_terms: vec![], lhs_preds: vec![], rhs: None };
    let mut out = vec![];
    write_clause(&mut out, &d, &vec![false; 3], &vec![false; 3], &preds);
    assert_eq!(text(out), "(not (=> (and true) false))");
}

#[test]
fn write_arithmetic() {
    let t = Term::Rel(
        RelOp::Le,
        Box::new(Term::Arith(
            ArithOp::Sub,
            Box::new(Term::Var(3)),
            Box::new(Term::Arith(ArithOp::Mul, Box::new(Term::Int(2)), Box::new(Term::Var(0)))),
        )),
        Box::new(Term::Arith(ArithOp::Add, Box::new(Term::Int(-1)), Box::new(Term::Var(1)))),
    );
    let mut out = vec![];
    write_term(&mut out, &t);
    assert_eq!(text(out), "(<= (- v3 (* 2 v0)) (+ (- 1) v1))");
}

#[test]
fn write_conjunctions() {
    let preds = vec![
        PrdInfo { name: "p".to_string(), sig: vec![Typ::Int] },
        PrdInfo { name: "q".to_string(), sig: vec![Typ::Int, Typ::Int] },
        PrdInfo { name: "r".to_string(), sig: vec![] },
    ];
    let apps = vec![
        PredApp { pred: 0, args: vec![Term::Var(0)] },
        PredApp { pred: 1, args: vec![Term::Var(1), Term::Int(-2)] },
        PredApp { pred: 2, args: vec![] },
    ];
    let mut out = vec![];
    write_conj(&mut out, &vec![ge(0, 1)], &apps, &vec![false; 3], &vec![false; 3], &preds);
    assert_eq!(text(out), "(and true (>= v0 1) (p v0) (q v1 (- 2)) r)");
    let mut out = vec![];
    write_conj(&mut out, &vec![], &apps, &vec![true, false, false], &vec![false, false, true], &preds);
    assert_eq!(text(out), "(and true (q v1 (- 2)) false)");
}
