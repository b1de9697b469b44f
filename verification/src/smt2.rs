//! SMT-LIB 2 text: the names of clause variables, terms written as the bodies
//! of `define-fun`s, clause assertions, and parsing the identifiers and values
//! of the solver's models.

use vstd::prelude::*;

use crate::instance::{Clause, PrdInfo, PredApp};
use crate::term::{spec_arith_vals, spec_rel_vals, ArithOp, RelOp, Term, Typ, Val};
use vstd::utf8::encode_utf8;

verus! {

/// Whether a byte is an ASCII digit.
pub open spec fn is_digit(b: u8) -> bool {
    48 <= b <= 57
}

/// Number of leading ASCII digits of a byte sequence.
pub open spec fn digit_run(s: Seq<u8>) -> nat
    decreases s.len(),
{
    if s.len() > 0 && is_digit(s[0]) {
        1 + digit_run(s.drop_first())
    } else {
        0
    }
}

/// Value of a sequence of decimal digits.
pub open spec fn dec_value(s: Seq<u8>) -> nat
    decreases s.len(),
{
    if s.len() == 0 {
        0
    } else {
        dec_value(s.drop_last()) * 10 + (s.last() - 48) as nat
    }
}

/// Decimal digits of a natural number, without leading zeros.
pub open spec fn dec_digits(n: nat) -> Seq<u8>
    decreases n,
{
    if n < 10 {
        seq![(48 + n) as u8]
    } else {
        dec_digits(n / 10).push((48 + n % 10) as u8)
    }
}

/// The byte `v` that starts every variable name.
pub open spec fn var_prefix() -> Seq<u8> {
    seq![118u8]
}

/// Name of clause variable `v` in SMT-LIB: `v` followed by its index.
pub open spec fn var_smt2(v: nat) -> Seq<u8> {
    var_prefix() + dec_digits(v)
}

/// Parsing a variable identifier at the start of some bytes: `v` followed by
/// the longest run of digits, whose value must fit in a `usize`. Gives the
/// index and the number of bytes read.
pub open spec fn spec_parse_ident(s: Seq<u8>) -> Option<(usize, usize)> {
    if s.len() >= 1 && s[0] == 118u8 {
        let n = digit_run(s.skip(1)) as int;
        let v = dec_value(s.subrange(1, 1 + n));
        if n >= 1 && v <= usize::MAX {
            Some((v as usize, (1 + n) as usize))
        } else {
            None
        }
    } else {
        None
    }
}

/// Digits are digits of the run.
proof fn lemma_digit_run(s: Seq<u8>)
    ensures
        digit_run(s) <= s.len(),
        forall|i: int| 0 <= i < digit_run(s) ==> is_digit(#[trigger] s[i]),
        digit_run(s) < s.len() ==> !is_digit(s[digit_run(s) as int]),
    decreases s.len(),
{
    if s.len() > 0 && is_digit(s[0]) {
        lemma_digit_run(s.drop_first());
        assert forall|i: int| 0 <= i < digit_run(s) implies is_digit(#[trigger] s[i]) by {
            if i > 0 {
                assert(s[i] == s.drop_first()[i - 1]);
            }
        }
    }
}

/// A run of digits is the whole digit run if the next byte is not a digit.
proof fn lemma_digit_run_exact(s: Seq<u8>, n: int)
    requires
        0 <= n <= s.len(),
        forall|i: int| 0 <= i < n ==> is_digit(#[trigger] s[i]),
        n < s.len() ==> !is_digit(s[n]),
    ensures
        digit_run(s) == n,
    decreases n,
{
    if n > 0 {
        assert(is_digit(s[0]));
        assert forall|i: int| 0 <= i < n - 1 implies is_digit(#[trigger] s.drop_first()[i]) by {
            assert(s.drop_first()[i] == s[i + 1]);
        }
        if n - 1 < s.drop_first().len() {
            assert(s.drop_first()[n - 1] == s[n]);
        }
        lemma_digit_run_exact(s.drop_first(), n - 1);
    } else if s.len() > 0 {
        assert(!is_digit(s[0]));
    }
}

/// The value of digits grows with more digits.
proof fn lemma_dec_value_prefix(s: Seq<u8>, k: int)
    requires
        0 <= k <= s.len(),
        forall|i: int| 0 <= i < s.len() ==> is_digit(#[trigger] s[i]),
    ensures
        dec_value(s.take(k)) <= dec_value(s),
    decreases s.len(),
{
    if k < s.len() {
        assert(s.drop_last().take(k) =~= s.take(k));
        assert forall|i: int| 0 <= i < s.drop_last().len() implies is_digit(#[trigger] s.drop_last()[i]) by {
            assert(s.drop_last()[i] == s[i]);
        }
        lemma_dec_value_prefix(s.drop_last(), k);
    } else {
        assert(s.take(k) =~= s);
    }
}

/// The decimal digits of a number are digits, at least one, and their value
/// is the number.
pub proof fn lemma_dec_digits(n: nat)
    ensures
        dec_digits(n).len() >= 1,
        forall|i: int| 0 <= i < dec_digits(n).len() ==> is_digit(#[trigger] dec_digits(n)[i]),
        dec_value(dec_digits(n)) == n,
    decreases n,
{
    if n >= 10 {
        lemma_dec_digits(n / 10);
        let d = dec_digits(n);
        assert(d.drop_last() =~= dec_digits(n / 10));
        assert(d.last() == (48 + n % 10) as u8);
        assert(d.last() - 48 == n % 10);
        assert(dec_value(d) == dec_value(d.drop_last()) * 10 + (d.last() - 48) as nat);
        assert((n / 10) * 10 + n % 10 == n) by (nonlinear_arith);
        assert forall|i: int| 0 <= i < d.len() implies is_digit(#[trigger] d[i]) by {
            if i < d.len() - 1 {
                assert(d[i] == dec_digits(n / 10)[i]);
            }
        }
    } else {
        let d = dec_digits(n);
        assert(d.drop_last() =~= Seq::<u8>::empty());
        assert(d.last() - 48 == n);
        assert(dec_value(d) == dec_value(d.drop_last()) * 10 + (d.last() - 48) as nat);
    }
}

/// Parses a variable identifier `v<index>` at the start of some bytes.
/// Returns the index and the number of bytes read.
pub fn parse_ident(bytes: &[u8]) -> (r: Option<(usize, usize)>)
    ensures
        r == spec_parse_ident(bytes@),
{
    let s = Ghost(bytes@);
    if bytes.len() < 1 || bytes[0] != 118u8 {
        return None;
    }
    let ghost t = bytes@.skip(1);
    proof {
        lemma_digit_run(t);
    }
    let mut i: usize = 1;
    let mut value: usize = 0;
    while i < bytes.len() && 48u8 <= bytes[i] && bytes[i] <= 57u8
        invariant
            s@ == bytes@,
            t == bytes@.skip(1),
            1 <= i <= bytes@.len(),
            forall|j: int| 1 <= j < i ==> is_digit(#[trigger] bytes@[j]),
            value == dec_value(bytes@.subrange(1, i as int)),
            i - 1 <= digit_run(t),
            digit_run(t) <= t.len(),
            forall|j: int| 0 <= j < digit_run(t) ==> is_digit(#[trigger] t[j]),
            digit_run(t) < t.len() ==> !is_digit(t[digit_run(t) as int]),
        decreases bytes.len() - i,
    {
        let d = (bytes[i] - 48u8) as usize;
        proof {
            assert(bytes@.subrange(1, i + 1).drop_last() =~= bytes@.subrange(1, i as int));
            assert(t[i - 1] == bytes@[i as int]);
            assert(is_digit(t[i - 1]));
        }
        let m = value.checked_mul(10);
        let next = match m {
            Some(m) => m.checked_add(d),
            None => None,
        };
        match next {
            Some(v) => {
                value = v;
            },
            None => {
                proof {
                    let n = digit_run(t) as int;
                    assert(dec_value(bytes@.subrange(1, i + 1)) > usize::MAX);
                    assert forall|j: int| 0 <= j < n implies is_digit(
                        #[trigger] bytes@.subrange(1, 1 + n)[j],
                    ) by {
                        assert(bytes@.subrange(1, 1 + n)[j] == t[j]);
                    }
                    assert(bytes@.subrange(1, 1 + n).take(i + 1 - 1) =~= bytes@.subrange(1, i + 1));
                    lemma_dec_value_prefix(bytes@.subrange(1, 1 + n), i + 1 - 1);
                }
                return None;
            },
        }
        i = i + 1;
    }
    proof {
        assert forall|j: int| 0 <= j < i - 1 implies is_digit(#[trigger] t[j]) by {
            assert(t[j] == bytes@[j + 1]);
        }
        if i < bytes@.len() {
            assert(t[i - 1] == bytes@[i as int]);
        }
        lemma_digit_run_exact(t, i - 1);
    }
    if i == 1 {
        return None;
    }
    Some((value, i))
}

/// Appends some bytes.
fn push_bytes(out: &mut Vec<u8>, bytes: &[u8])
    ensures
        final(out)@ == old(out)@ + bytes@,
{
    let mut i: usize = 0;
    while i < bytes.len()
        invariant
            i <= bytes@.len(),
            out@ == old(out)@ + bytes@.take(i as int),
        decreases bytes.len() - i,
    {
        out.push(bytes[i]);
        proof {
            assert(bytes@.take(i + 1) =~= bytes@.take(i as int).push(bytes@[i as int]));
        }
        i = i + 1;
    }
    assert(bytes@.take(bytes@.len() as int) =~= bytes@);
}

/// Appends the decimal digits of a number.
fn push_decimal(out: &mut Vec<u8>, n: u64)
    ensures
        final(out)@ == old(out)@ + dec_digits(n as nat),
    decreases n,
{
    if n >= 10 {
        push_decimal(out, n / 10);
    }
    out.push(48u8 + (n % 10) as u8);
    proof {
        if n >= 10 {
            assert(dec_digits(n as nat) == dec_digits((n / 10) as nat).push((48 + n % 10) as u8));
        }
    }
    assert(final(out)@ =~= old(out)@ + dec_digits(n as nat));
}

/// Writes the SMT-LIB name of a clause variable.
pub fn write_var(out: &mut Vec<u8>, v: usize)
    ensures
        final(out)@ == old(out)@ + var_smt2(v as nat),
{
    let ghost o = out@;
    out.push(118u8);
    assert(out@ =~= o + var_prefix());
    push_decimal(out, v as u64);
    assert(final(out)@ =~= o + var_smt2(v as nat));
}

/// The variable names written by `write_var` are read back by `parse_ident`,
/// whatever follows them as long as it does not start with a digit.
pub proof fn law_var_name_roundtrip(v: usize, rest: Seq<u8>)
    requires
        rest.len() == 0 || !is_digit(rest[0]),
    ensures
        spec_parse_ident(var_smt2(v as nat) + rest) == Some((v, var_smt2(v as nat).len() as usize)),
{
    let d = dec_digits(v as nat);
    lemma_dec_digits(v as nat);
    let s = var_smt2(v as nat) + rest;
    let t = s.skip(1);
    assert(t =~= d + rest);
    assert forall|i: int| 0 <= i < d.len() implies is_digit(#[trigger] t[i]) by {
        assert(t[i] == d[i]);
    }
    if d.len() < t.len() {
        assert(t[d.len() as int] == rest[0]);
    }
    lemma_digit_run_exact(t, d.len() as int);
    assert(s.subrange(1, 1 + d.len() as int) =~= d);
}

/// Bytes of an SMT-LIB keyword or symbol.
pub open spec fn lit_true() -> Seq<u8> {
    seq![116u8, 114u8, 117u8, 101u8]
}

pub open spec fn lit_false() -> Seq<u8> {
    seq![102u8, 97u8, 108u8, 115u8, 101u8]
}

/// `(- `
pub open spec fn lit_neg() -> Seq<u8> {
    seq![40u8, 45u8, 32u8]
}

/// `(not `
pub open spec fn lit_not() -> Seq<u8> {
    seq![40u8, 110u8, 111u8, 116u8, 32u8]
}

/// `(and `
pub open spec fn lit_and() -> Seq<u8> {
    seq![40u8, 97u8, 110u8, 100u8, 32u8]
}

/// `(or `
pub open spec fn lit_or() -> Seq<u8> {
    seq![40u8, 111u8, 114u8, 32u8]
}

/// Opening of a relation: `(>= `, `(<= `, `(> `, `(< ` or `(= `.
pub open spec fn lit_rel(op: RelOp) -> Seq<u8> {
    match op {
        RelOp::Ge => seq![40u8, 62u8, 61u8, 32u8],
        RelOp::Le => seq![40u8, 60u8, 61u8, 32u8],
        RelOp::Gt => seq![40u8, 62u8, 32u8],
        RelOp::Lt => seq![40u8, 60u8, 32u8],
        RelOp::Eq => seq![40u8, 61u8, 32u8],
    }
}

/// Opening of an arithmetic operation: `(+ `, `(- ` or `(* `.
pub open spec fn lit_arith(op: ArithOp) -> Seq<u8> {
    match op {
        ArithOp::Add => seq![40u8, 43u8, 32u8],
        ArithOp::Sub => seq![40u8, 45u8, 32u8],
        ArithOp::Mul => seq![40u8, 42u8, 32u8],
    }
}

/// An integer constant in SMT-LIB: its digits, or `(- digits)` if negative.
pub open spec fn int_smt2(i: i64) -> Seq<u8> {
    if i >= 0 {
        dec_digits(i as nat)
    } else {
        lit_neg() + dec_digits((-i) as nat) + seq![41u8]
    }
}

/// A term in SMT-LIB, its variables written `v<index>`.
pub open spec fn term_smt2(t: Term) -> Seq<u8>
    decreases t,
{
    match t {
        Term::Var(v) => var_smt2(v as nat),
        Term::Int(i) => int_smt2(i),
        Term::Bool(b) => if b {
            lit_true()
        } else {
            lit_false()
        },
        Term::Arith(op, l, r) => lit_arith(op) + term_smt2(*l) + seq![32u8] + term_smt2(*r) + seq![41u8],
        Term::Rel(op, l, r) => lit_rel(op) + term_smt2(*l) + seq![32u8] + term_smt2(*r) + seq![41u8],
        Term::Not(a) => lit_not() + term_smt2(*a) + seq![41u8],
        Term::And(a, b) => lit_and() + term_smt2(*a) + seq![32u8] + term_smt2(*b) + seq![41u8],
        Term::Or(a, b) => lit_or() + term_smt2(*a) + seq![32u8] + term_smt2(*b) + seq![41u8],
    }
}

fn push_lit_rel(out: &mut Vec<u8>, op: RelOp)
    ensures
        final(out)@ == old(out)@ + lit_rel(op),
{
    let ghost o = out@;
    out.push(40u8);
    match op {
        RelOp::Ge => {
            out.push(62u8);
            out.push(61u8);
        },
        RelOp::Le => {
            out.push(60u8);
            out.push(61u8);
        },
        RelOp::Gt => {
            out.push(62u8);
        },
        RelOp::Lt => {
            out.push(60u8);
        },
        RelOp::Eq => {
            out.push(61u8);
        },
    }
    out.push(32u8);
    assert(out@ =~= o + lit_rel(op));
}

fn push_lit_arith(out: &mut Vec<u8>, op: ArithOp)
    ensures
        final(out)@ == old(out)@ + lit_arith(op),
{
    let ghost o = out@;
    out.push(40u8);
    match op {
        ArithOp::Add => out.push(43u8),
        ArithOp::Sub => out.push(45u8),
        ArithOp::Mul => out.push(42u8),
    }
    out.push(32u8);
    assert(out@ =~= o + lit_arith(op));
}

/// Writes an integer constant.
pub fn write_int(out: &mut Vec<u8>, i: i64)
    ensures
        final(out)@ == old(out)@ + int_smt2(i),
{
    let ghost o = out@;
    if i >= 0 {
        push_decimal(out, i as u64);
    } else {
        push_bytes(out, &[40u8, 45u8, 32u8]);
        assert(out@ =~= o + lit_neg());
        let m: i128 = -(i as i128);
        push_decimal(out, m as u64);
        out.push(41u8);
        assert(out@ =~= o + int_smt2(i));
    }
}

/// Writes a term, e.g. as the body of a `define-fun`.
pub fn write_term(out: &mut Vec<u8>, t: &Term)
    ensures
        final(out)@ == old(out)@ + term_smt2(*t),
    decreases t,
{
    let ghost o = out@;
    match t {
        Term::Var(v) => write_var(out, *v),
        Term::Int(i) => write_int(out, *i),
        Term::Bool(b) => {
            if *b {
                push_bytes(out, &[116u8, 114u8, 117u8, 101u8]);
                assert(out@ =~= o + lit_true());
            } else {
                push_bytes(out, &[102u8, 97u8, 108u8, 115u8, 101u8]);
                assert(out@ =~= o + lit_false());
            }
        },
        Term::Arith(op, l, r) => {
            push_lit_arith(out, *op);
            write_term(out, l);
            out.push(32u8);
            write_term(out, r);
            out.push(41u8);
            assert(out@ =~= o + term_smt2(*t));
        },
        Term::Rel(op, l, r) => {
            push_lit_rel(out, *op);
            write_term(out, l);
            out.push(32u8);
            write_term(out, r);
            out.push(41u8);
            assert(out@ =~= o + term_smt2(*t));
        },
        Term::Not(a) => {
            push_bytes(out, &[40u8, 110u8, 111u8, 116u8, 32u8]);
            assert(out@ =~= o + lit_not());
            write_term(out, a);
            out.push(41u8);
            assert(out@ =~= o + term_smt2(*t));
        },
        Term::And(a, b) => {
            push_bytes(out, &[40u8, 97u8, 110u8, 100u8, 32u8]);
            assert(out@ =~= o + lit_and());
            write_term(out, a);
            out.push(32u8);
            write_term(out, b);
            out.push(41u8);
            assert(out@ =~= o + term_smt2(*t));
        },
        Term::Or(a, b) => {
            push_bytes(out, &[40u8, 111u8, 114u8, 32u8]);
            assert(out@ =~= o + lit_or());
            write_term(out, a);
            out.push(32u8);
            write_term(out, b);
            out.push(41u8);
            assert(out@ =~= o + term_smt2(*t));
        },
    }
}

/// The arguments of an application, each preceded by a space.
pub open spec fn args_smt2(args: Seq<Term>) -> Seq<u8>
    decreases args.len(),
{
    if args.len() == 0 {
        Seq::empty()
    } else {
        args_smt2(args.drop_last()) + seq![32u8] + term_smt2(args.last())
    }
}

/// Name of a predicate, as UTF-8 bytes.
pub open spec fn pred_name(preds: Seq<PrdInfo>, p: usize) -> Seq<u8> {
    encode_utf8(preds[p as int].name@)
}

/// A predicate application: the name alone without arguments, else
/// `(name args...)`.
pub open spec fn app_smt2(app: PredApp, preds: Seq<PrdInfo>) -> Seq<u8> {
    if app.args@.len() == 0 {
        pred_name(preds, app.pred)
    } else {
        seq![40u8] + pred_name(preds, app.pred) + args_smt2(app.args@) + seq![41u8]
    }
}

/// A conjunct of the lhs for a predicate application, preceded by a space:
/// nothing if the predicate is known true, `false` if it is known false, the
/// application otherwise.
pub open spec fn lhs_app_smt2(app: PredApp, tp: Seq<bool>, fp: Seq<bool>, preds: Seq<PrdInfo>) -> Seq<u8> {
    if tp[app.pred as int] {
        Seq::empty()
    } else if fp[app.pred as int] {
        seq![32u8] + lit_false()
    } else {
        seq![32u8] + app_smt2(app, preds)
    }
}

/// The lhs terms, each preceded by a space.
pub open spec fn lhs_terms_smt2(ts: Seq<Term>) -> Seq<u8> {
    args_smt2(ts)
}

/// The lhs predicate applications, as conjuncts.
pub open spec fn lhs_apps_smt2(apps: Seq<PredApp>, tp: Seq<bool>, fp: Seq<bool>, preds: Seq<PrdInfo>) -> Seq<u8>
    decreases apps.len(),
{
    if apps.len() == 0 {
        Seq::empty()
    } else {
        lhs_apps_smt2(apps.drop_last(), tp, fp, preds) + lhs_app_smt2(apps.last(), tp, fp, preds)
    }
}

/// The rhs of a clause: `false` if none or known false, `true` if known true,
/// the application otherwise.
pub open spec fn rhs_smt2(rhs: Option<PredApp>, tp: Seq<bool>, fp: Seq<bool>, preds: Seq<PrdInfo>) -> Seq<u8> {
    match rhs {
        None => lit_false(),
        Some(app) => if tp[app.pred as int] {
            lit_true()
        } else if fp[app.pred as int] {
            lit_false()
        } else {
            app_smt2(app, preds)
        },
    }
}

/// `(not (=> (and true`
pub open spec fn lit_clause_open() -> Seq<u8> {
    seq![40u8, 110u8, 111u8, 116u8, 32u8, 40u8, 61u8, 62u8, 32u8, 40u8, 97u8, 110u8, 100u8, 32u8, 116u8, 114u8, 117u8, 101u8]
}

/// The assertion whose models are the counterexamples of a clause: the
/// negation of the clause, with predicates known true or false inlined.
pub open spec fn clause_smt2(c: Clause, tp: Seq<bool>, fp: Seq<bool>, preds: Seq<PrdInfo>) -> Seq<u8> {
    lit_clause_open() + lhs_terms_smt2(c.lhs_terms@) + lhs_apps_smt2(c.lhs_preds@, tp, fp, preds)
        + seq![41u8, 32u8] + rhs_smt2(c.rhs, tp, fp, preds) + seq![41u8, 41u8]
}

/// The predicates a clause applies are among the known ones.
pub open spec fn clause_preds_in(c: Clause, n: nat) -> bool {
    &&& forall|k: int| 0 <= k < c.lhs_preds@.len() ==> (#[trigger] c.lhs_preds@[k]).pred < n
    &&& c.rhs matches Some(app) ==> app.pred < n
}

/// Writes terms, each preceded by a space.
fn write_args(out: &mut Vec<u8>, args: &Vec<Term>)
    ensures
        final(out)@ == old(out)@ + args_smt2(args@),
{
    let mut i: usize = 0;
    while i < args.len()
        invariant
            i <= args@.len(),
            out@ == old(out)@ + args_smt2(args@.take(i as int)),
        decreases args.len() - i,
    {
        let ghost o = out@;
        out.push(32u8);
        write_term(out, &args[i]);
        proof {
            assert(args@.take(i + 1).drop_last() =~= args@.take(i as int));
            assert(out@ =~= old(out)@ + args_smt2(args@.take(i + 1)));
        }
        i = i + 1;
    }
    assert(args@.take(args@.len() as int) =~= args@);
}

/// Writes the name of a predicate.
fn write_pred_name(out: &mut Vec<u8>, preds: &Vec<PrdInfo>, p: usize)
    requires
        p < preds@.len(),
    ensures
        final(out)@ == old(out)@ + pred_name(preds@, p),
{
    push_bytes(out, preds[p].name.as_str().as_bytes());
}

/// Writes a predicate application.
fn write_app(out: &mut Vec<u8>, app: &PredApp, preds: &Vec<PrdInfo>)
    requires
        app.pred < preds@.len(),
    ensures
        final(out)@ == old(out)@ + app_smt2(*app, preds@),
{
    let ghost o = out@;
    if app.args.len() == 0 {
        write_pred_name(out, preds, app.pred);
    } else {
        out.push(40u8);
        write_pred_name(out, preds, app.pred);
        write_args(out, &app.args);
        out.push(41u8);
        assert(out@ =~= o + app_smt2(*app, preds@));
    }
}

/// Writes predicate applications as conjuncts, with the predicates known
/// true (`tp`) or false (`fp`) inlined.
fn write_lhs_apps(out: &mut Vec<u8>, apps: &Vec<PredApp>, tp: &Vec<bool>, fp: &Vec<bool>, preds: &Vec<PrdInfo>)
    requires
        tp@.len() == preds@.len(),
        fp@.len() == preds@.len(),
        forall|k: int| 0 <= k < apps@.len() ==> (#[trigger] apps@[k]).pred < preds@.len(),
    ensures
        final(out)@ == old(out)@ + lhs_apps_smt2(apps@, tp@, fp@, preds@),
{
    let ghost o2 = out@;
    let mut k: usize = 0;
    while k < apps.len()
        invariant
            k <= apps@.len(),
            tp@.len() == preds@.len(),
            fp@.len() == preds@.len(),
            forall|j: int| 0 <= j < apps@.len() ==> (#[trigger] apps@[j]).pred < preds@.len(),
            out@ == o2 + lhs_apps_smt2(apps@.take(k as int), tp@, fp@, preds@),
        decreases apps.len() - k,
    {
        let app = &apps[k];
        assert(app.pred < preds@.len());
        let ghost o3 = out@;
        if tp[app.pred] {
        } else if fp[app.pred] {
            push_bytes(out, &[32u8, 102u8, 97u8, 108u8, 115u8, 101u8]);
        } else {
            out.push(32u8);
            write_app(out, app, preds);
        }
        proof {
            assert(out@ =~= o3 + lhs_app_smt2(*app, tp@, fp@, preds@));
            assert(apps@.take(k + 1).drop_last() =~= apps@.take(k as int));
            assert(out@ =~= o2 + lhs_apps_smt2(apps@.take(k + 1), tp@, fp@, preds@));
        }
        k = k + 1;
    }
    assert(apps@.take(apps@.len() as int) =~= apps@);
}

/// `(and true`
pub open spec fn lit_and_true() -> Seq<u8> {
    seq![40u8, 97u8, 110u8, 100u8, 32u8, 116u8, 114u8, 117u8, 101u8]
}

/// A conjunction of terms and predicate applications, as the body of a
/// `define-fun`: `(and true terms... apps...)`, with the predicates known
/// true dropped and those known false written `false`.
pub open spec fn conj_smt2(terms: Seq<Term>, apps: Seq<PredApp>, tp: Seq<bool>, fp: Seq<bool>, preds: Seq<PrdInfo>) -> Seq<u8> {
    lit_and_true() + lhs_terms_smt2(terms) + lhs_apps_smt2(apps, tp, fp, preds) + seq![41u8]
}

/// Writes a conjunction of terms and predicate applications, given the
/// predicates known true (`tp`) and false (`fp`).
pub fn write_conj(
    out: &mut Vec<u8>,
    terms: &Vec<Term>,
    apps: &Vec<PredApp>,
    tp: &Vec<bool>,
    fp: &Vec<bool>,
    preds: &Vec<PrdInfo>,
)
    requires
        tp@.len() == preds@.len(),
        fp@.len() == preds@.len(),
        forall|k: int| 0 <= k < apps@.len() ==> (#[trigger] apps@[k]).pred < preds@.len(),
    ensures
        final(out)@ == old(out)@ + conj_smt2(terms@, apps@, tp@, fp@, preds@),
{
    let ghost o = out@;
    push_bytes(out, &[40u8, 97u8, 110u8, 100u8, 32u8, 116u8, 114u8, 117u8, 101u8]);
    assert(out@ =~= o + lit_and_true());
    write_args(out, terms);
    write_lhs_apps(out, apps, tp, fp, preds);
    out.push(41u8);
    assert(out@ =~= o + conj_smt2(terms@, apps@, tp@, fp@, preds@));
}

/// Writes the assertion whose models are the counterexamples of a clause,
/// given the predicates known true (`tp`) and false (`fp`).
pub fn write_clause(out: &mut Vec<u8>, c: &Clause, tp: &Vec<bool>, fp: &Vec<bool>, preds: &Vec<PrdInfo>)
    requires
        tp@.len() == preds@.len(),
        fp@.len() == preds@.len(),
        clause_preds_in(*c, preds@.len()),
    ensures
        final(out)@ == old(out)@ + clause_smt2(*c, tp@, fp@, preds@),
{
    let ghost o = out@;
    push_bytes(
        out,
        &[40u8, 110u8, 111u8, 116u8, 32u8, 40u8, 61u8, 62u8, 32u8, 40u8, 97u8, 110u8, 100u8, 32u8, 116u8, 114u8, 117u8, 101u8],
    );
    assert(out@ =~= o + lit_clause_open());
    write_args(out, &c.lhs_terms);
    write_lhs_apps(out, &c.lhs_preds, tp, fp, preds);
    out.push(41u8);
    out.push(32u8);
    let ghost o4 = out@;
    match &c.rhs {
        None => {
            push_bytes(out, &[102u8, 97u8, 108u8, 115u8, 101u8]);
        },
        Some(app) => {
            if tp[app.pred] {
                push_bytes(out, &[116u8, 114u8, 117u8, 101u8]);
            } else if fp[app.pred] {
                push_bytes(out, &[102u8, 97u8, 108u8, 115u8, 101u8]);
            } else {
                write_app(out, app, preds);
            }
        },
    }
    assert(out@ =~= o4 + rhs_smt2(c.rhs, tp@, fp@, preds@));
    out.push(41u8);
    out.push(41u8);
    assert(out@ =~= o + clause_smt2(*c, tp@, fp@, preds@));
}

/// The run of digits starting at `start`, if not empty: its value and where
/// it ends.
pub open spec fn spec_digits_at(s: Seq<u8>, start: int) -> Option<(nat, int)> {
    let n = digit_run(s.skip(start)) as int;
    if n >= 1 {
        Some((dec_value(s.subrange(start, start + n)), start + n))
    } else {
        None
    }
}

/// Whether some bytes start with others.
pub open spec fn starts_with(s: Seq<u8>, p: Seq<u8>) -> bool {
    s.len() >= p.len() && s.take(p.len() as int) == p
}

/// Parsing a value at the start of some bytes: `true`, `false`, a natural
/// number, or `(- n)`, as integers fitting an `i64`. Gives the value and the
/// number of bytes read.
pub open spec fn spec_parse_value(s: Seq<u8>) -> Option<(Val, usize)> {
    if starts_with(s, lit_true()) {
        Some((Val::B(true), 4))
    } else if starts_with(s, lit_false()) {
        Some((Val::B(false), 5))
    } else if starts_with(s, lit_neg()) {
        match spec_digits_at(s, 3) {
            Some((v, e)) => if v <= 0x8000_0000_0000_0000 && e < s.len() && s[e] == 41u8 {
                Some((Val::I((-v) as i64), (e + 1) as usize))
            } else {
                None
            },
            None => None,
        }
    } else {
        match spec_digits_at(s, 0) {
            Some((v, e)) => if v <= i64::MAX {
                Some((Val::I(v as i64), e as usize))
            } else {
                None
            },
            None => None,
        }
    }
}

/// Reads the run of digits starting at `start`, if its value fits a `u64`.
fn parse_u64_at(bytes: &[u8], start: usize) -> (r: Option<(u64, usize)>)
    requires
        start <= bytes@.len(),
    ensures
        r matches Some((v, e)) ==> spec_digits_at(bytes@, start as int) == Some((v as nat, e as int)),
        r is None ==> (spec_digits_at(bytes@, start as int) is None || spec_digits_at(
            bytes@,
            start as int,
        ).unwrap().0 > u64::MAX),
{
    let ghost t = bytes@.skip(start as int);
    proof {
        lemma_digit_run(t);
    }
    let mut i: usize = start;
    let mut value: u64 = 0;
    while i < bytes.len() && 48u8 <= bytes[i] && bytes[i] <= 57u8
        invariant
            t == bytes@.skip(start as int),
            start <= i <= bytes@.len(),
            value == dec_value(bytes@.subrange(start as int, i as int)),
            i - start <= digit_run(t),
            digit_run(t) <= t.len(),
            forall|j: int| 0 <= j < digit_run(t) ==> is_digit(#[trigger] t[j]),
            digit_run(t) < t.len() ==> !is_digit(t[digit_run(t) as int]),
        decreases bytes.len() - i,
    {
        let d = (bytes[i] - 48u8) as u64;
        proof {
            assert(bytes@.subrange(start as int, i + 1).drop_last() =~= bytes@.subrange(start as int, i as int));
            assert(t[i - start] == bytes@[i as int]);
            assert(is_digit(t[i - start]));
        }
        let m = value.checked_mul(10);
        let next = match m {
            Some(m) => m.checked_add(d),
            None => None,
        };
        match next {
            Some(v) => {
                value = v;
            },
            None => {
                proof {
                    let n = digit_run(t) as int;
                    let run = bytes@.subrange(start as int, start + n);
                    assert(dec_value(bytes@.subrange(start as int, i + 1)) > u64::MAX);
                    assert forall|j: int| 0 <= j < n implies is_digit(#[trigger] run[j]) by {
                        assert(run[j] == t[j]);
                    }
                    assert(run.take(i + 1 - start) =~= bytes@.subrange(start as int, i + 1));
                    lemma_dec_value_prefix(run, i + 1 - start);
                }
                return None;
            },
        }
        i = i + 1;
    }
    proof {
        assert forall|j: int| 0 <= j < i - start implies is_digit(#[trigger] t[j]) by {
            assert(t[j] == bytes@[j + start]);
        }
        if i < bytes@.len() {
            assert(t[i - start] == bytes@[i as int]);
        }
        lemma_digit_run_exact(t, i - start);
    }
    if i == start {
        return None;
    }
    Some((value, i))
}

/// Whether some bytes start with others.
fn has_prefix(bytes: &[u8], p: &[u8]) -> (r: bool)
    ensures
        r == starts_with(bytes@, p@),
{
    if bytes.len() < p.len() {
        return false;
    }
    let mut i: usize = 0;
    while i < p.len()
        invariant
            p@.len() <= bytes@.len(),
            i <= p@.len(),
            forall|j: int| 0 <= j < i ==> bytes@[j] == p@[j],
        decreases p.len() - i,
    {
        if bytes[i] != p[i] {
            assert(bytes@.take(p@.len() as int)[i as int] != p@[i as int]);
            return false;
        }
        i = i + 1;
    }
    assert(bytes@.take(p@.len() as int) =~= p@);
    true
}

/// Parses a value at the start of some bytes: `true`, `false`, a natural
/// number or `(- n)`. Returns the value and the number of bytes read.
pub fn parse_value(bytes: &[u8]) -> (r: Option<(Val, usize)>)
    ensures
        r == spec_parse_value(bytes@),
{
    if has_prefix(bytes, &[116u8, 114u8, 117u8, 101u8]) {
        assert(starts_with(bytes@, lit_true()));
        return Some((Val::B(true), 4));
    }
    assert(!starts_with(bytes@, lit_true()));
    if has_prefix(bytes, &[102u8, 97u8, 108u8, 115u8, 101u8]) {
        assert(starts_with(bytes@, lit_false()));
        return Some((Val::B(false), 5));
    }
    assert(!starts_with(bytes@, lit_false()));
    if has_prefix(bytes, &[40u8, 45u8, 32u8]) {
        assert(starts_with(bytes@, lit_neg()));
        match parse_u64_at(bytes, 3) {
            Some((v, e)) => {
                if v <= 0x8000_0000_0000_0000u64 && e < bytes.len() && bytes[e] == 41u8 {
                    let n: i128 = -(v as i128);
                    let x = n as i64;
                    assert(x == (-(v as nat)) as i64);
                    Some((Val::I(x), e + 1))
                } else {
                    None
                }
            },
            None => None,
        }
    } else {
        assert(!starts_with(bytes@, lit_neg()));
        match parse_u64_at(bytes, 0) {
            Some((v, e)) => {
                if v <= 0x7fff_ffff_ffff_ffffu64 {
                    Some((Val::I(v as i64), e))
                } else {
                    None
                }
            },
            None => None,
        }
    }
}

/// Integers written by `write_int` are read back by `parse_value`, whatever
/// follows them as long as it does not start with a digit.
pub proof fn law_int_roundtrip(i: i64, rest: Seq<u8>)
    requires
        rest.len() == 0 || !is_digit(rest[0]),
    ensures
        spec_parse_value(int_smt2(i) + rest) == Some((Val::I(i), int_smt2(i).len() as usize)),
{
    let s = int_smt2(i) + rest;
    if i >= 0 {
        let d = dec_digits(i as nat);
        lemma_dec_digits(i as nat);
        assert(s[0] == d[0]);
        assert(is_digit(d[0]));
        assert(!starts_with(s, lit_true())) by {
            if s.len() >= 4 {
                assert(s.take(4)[0] == s[0]);
            }
        }
        assert(!starts_with(s, lit_false())) by {
            if s.len() >= 5 {
                assert(s.take(5)[0] == s[0]);
            }
        }
        assert(!starts_with(s, lit_neg())) by {
            if s.len() >= 3 {
                assert(s.take(3)[0] == s[0]);
            }
        }
        let t = s.skip(0);
        assert(t =~= d + rest);
        assert forall|k: int| 0 <= k < d.len() implies is_digit(#[trigger] t[k]) by {
            assert(t[k] == d[k]);
        }
        if d.len() < t.len() {
            assert(t[d.len() as int] == rest[0]);
        }
        lemma_digit_run_exact(t, d.len() as int);
        assert(s.subrange(0, d.len() as int) =~= d);
    } else {
        let v = (-i) as nat;
        let d = dec_digits(v);
        lemma_dec_digits(v);
        assert(s.take(4)[0] == 40u8);
        assert(s.take(5)[0] == 40u8);
        assert(!starts_with(s, lit_true()));
        assert(!starts_with(s, lit_false()));
        assert(s.take(3) =~= lit_neg());
        let t = s.skip(3);
        assert(t =~= d + seq![41u8] + rest);
        assert forall|k: int| 0 <= k < d.len() implies is_digit(#[trigger] t[k]) by {
            assert(t[k] == d[k]);
        }
        assert(t[d.len() as int] == 41u8);
        lemma_digit_run_exact(t, d.len() as int);
        assert(s.subrange(3, 3 + d.len() as int) =~= d);
        assert(s[3 + d.len() as int] == 41u8);
    }
}

/// A type in SMT-LIB: `Int` or `Bool`.
pub open spec fn typ_smt2(t: Typ) -> Seq<u8> {
    match t {
        Typ::Int => seq![73u8, 110u8, 116u8],
        Typ::Bool => seq![66u8, 111u8, 111u8, 108u8],
    }
}

/// Writes a type.
pub fn write_typ(out: &mut Vec<u8>, t: Typ)
    ensures
        final(out)@ == old(out)@ + typ_smt2(t),
{
    match t {
        Typ::Int => push_bytes(out, &[73u8, 110u8, 116u8]),
        Typ::Bool => push_bytes(out, &[66u8, 111u8, 111u8, 108u8]),
    }
}

/// Booleans written as terms are read back by `parse_value`.
pub proof fn law_bool_roundtrip(b: bool, rest: Seq<u8>)
    ensures
        spec_parse_value(term_smt2(Term::Bool(b)) + rest) == Some((Val::B(b), term_smt2(Term::Bool(b)).len() as usize)),
{
    let s = term_smt2(Term::Bool(b)) + rest;
    if b {
        assert(s.take(4) =~= lit_true());
    } else {
        assert(s.take(4)[0] == 102u8);
        assert(!starts_with(s, lit_true()));
        assert(s.take(5) =~= lit_false());
    }
}


/// Whether some bytes end with others.
pub open spec fn ends_with(s: Seq<u8>, t: Seq<u8>) -> bool {
    s.len() >= t.len() && s.skip(s.len() - t.len()) == t
}

/// The text of a comparison means what the comparison evaluates to: it is
/// `(`, the operator, and a space, where the operator is made of `<`, `=`
/// and `>`, and the comparison of two integers holds exactly when they are
/// in an order whose sign the operator holds (`<` when the first is
/// smaller, `=` when they are equal, `>` when it is larger).
pub proof fn law_rel_text(op: RelOp, x: i64, y: i64)
    ensures
        lit_rel(op).len() == 3 || lit_rel(op).len() == 4,
        lit_rel(op)[0] == 40u8,
        lit_rel(op).last() == 32u8,
        forall|k: int|
            1 <= k < lit_rel(op).len() - 1 ==> (#[trigger] lit_rel(op)[k] == 60u8 || lit_rel(op)[k] == 61u8
                || lit_rel(op)[k] == 62u8),
        spec_rel_vals(op, Val::I(x), Val::I(y)) == Some(
            Val::B(
                (x < y && lit_rel(op).contains(60u8)) || (x == y && lit_rel(op).contains(61u8)) || (x > y
                    && lit_rel(op).contains(62u8)),
            ),
        ),
{
    let t = lit_rel(op);
    match op {
        RelOp::Ge => {
            assert(t[1] == 62u8 && t[2] == 61u8);
            assert(!t.contains(60u8));
        },
        RelOp::Le => {
            assert(t[1] == 60u8 && t[2] == 61u8);
            assert(!t.contains(62u8));
        },
        RelOp::Gt => {
            assert(t[1] == 62u8);
            assert(!t.contains(60u8));
            assert(!t.contains(61u8));
        },
        RelOp::Lt => {
            assert(t[1] == 60u8);
            assert(!t.contains(61u8));
            assert(!t.contains(62u8));
        },
        RelOp::Eq => {
            assert(t[1] == 61u8);
            assert(!t.contains(60u8));
            assert(!t.contains(62u8));
        },
    }
}

/// A comparison term is written as its operator's text applied to its two
/// sides.
pub proof fn law_rel_term_text(op: RelOp, l: Term, r: Term)
    ensures
        term_smt2(Term::Rel(op, Box::new(l), Box::new(r))) == lit_rel(op) + term_smt2(l) + seq![32u8]
            + term_smt2(r) + seq![41u8],
{
}

/// How the rhs of a clause ends its assertion: a predicate known true makes
/// the assertion end with `true))`, so that it has no model; no rhs, or one
/// known false (and not true), ends it with `false))`; any other rhs is its
/// application followed by `))`. The assertion always starts with
/// `(not (=> (and true`.
pub proof fn law_clause_rhs_text(c: Clause, tp: Seq<bool>, fp: Seq<bool>, preds: Seq<PrdInfo>)
    ensures
        clause_smt2(c, tp, fp, preds).take(18) == seq![40u8, 110u8, 111u8, 116u8, 32u8, 40u8, 61u8, 62u8, 32u8, 40u8, 97u8, 110u8, 100u8, 32u8, 116u8, 114u8, 117u8, 101u8],
        c.rhs is Some && tp[c.rhs.unwrap().pred as int] ==> ends_with(
            clause_smt2(c, tp, fp, preds),
            seq![116u8, 114u8, 117u8, 101u8, 41u8, 41u8],
        ),
        (c.rhs is None || (c.rhs is Some && !tp[c.rhs.unwrap().pred as int] && fp[c.rhs.unwrap().pred as int]))
            ==> ends_with(
            clause_smt2(c, tp, fp, preds),
            seq![102u8, 97u8, 108u8, 115u8, 101u8, 41u8, 41u8],
        ),
        c.rhs is Some && !tp[c.rhs.unwrap().pred as int] && !fp[c.rhs.unwrap().pred as int] ==> ends_with(
            clause_smt2(c, tp, fp, preds),
            app_smt2(c.rhs.unwrap(), preds) + seq![41u8, 41u8],
        ),
{
    let s = clause_smt2(c, tp, fp, preds);
    let head = lit_clause_open() + lhs_terms_smt2(c.lhs_terms@) + lhs_apps_smt2(c.lhs_preds@, tp, fp, preds)
        + seq![41u8, 32u8];
    let rhs = rhs_smt2(c.rhs, tp, fp, preds);
    assert(s == head + (rhs + seq![41u8, 41u8]));
    assert(s.skip(s.len() - (rhs.len() + 2)) =~= rhs + seq![41u8, 41u8]);
    assert(s.take(18) =~= lit_clause_open());
    let tail = rhs + seq![41u8, 41u8];
    match c.rhs {
        None => {
            assert(tail =~= seq![102u8, 97u8, 108u8, 115u8, 101u8, 41u8, 41u8]);
        },
        Some(app) => {
            if tp[app.pred as int] {
                assert(tail =~= seq![116u8, 114u8, 117u8, 101u8, 41u8, 41u8]);
            } else if fp[app.pred as int] {
                assert(tail =~= seq![102u8, 97u8, 108u8, 115u8, 101u8, 41u8, 41u8]);
            }
        },
    }
}


/// The text of an arithmetic operation means what it evaluates to: `(`, the
/// operator `+`, `-` or `*`, and a space, the operator being the one whose
/// integer operation the evaluation performs.
pub proof fn law_arith_text(op: ArithOp, x: i64, y: i64)
    ensures
        lit_arith(op).len() == 3,
        lit_arith(op)[0] == 40u8,
        lit_arith(op)[2] == 32u8,
        lit_arith(op)[1] == 43u8 || lit_arith(op)[1] == 45u8 || lit_arith(op)[1] == 42u8,
        spec_arith_vals(op, Val::I(x), Val::I(y)) == {
            let r: int = if lit_arith(op)[1] == 43u8 {
                x + y
            } else if lit_arith(op)[1] == 45u8 {
                x - y
            } else {
                x * y
            };
            if i64::MIN <= r <= i64::MAX {
                Some(Val::I(r as i64))
            } else {
                None
            }
        },
{
}

/// How a predicate application of a clause's lhs is written: not at all
/// when the predicate is known true, as ` false` when it is known false (and
/// not true), as a space and the application otherwise.
pub proof fn law_lhs_app_text(app: PredApp, tp: Seq<bool>, fp: Seq<bool>, preds: Seq<PrdInfo>)
    ensures
        tp[app.pred as int] ==> lhs_app_smt2(app, tp, fp, preds) == Seq::<u8>::empty(),
        !tp[app.pred as int] && fp[app.pred as int] ==> lhs_app_smt2(app, tp, fp, preds) == seq![
            32u8,
            102u8,
            97u8,
            108u8,
            115u8,
            101u8,
        ],
        !tp[app.pred as int] && !fp[app.pred as int] ==> lhs_app_smt2(app, tp, fp, preds) == seq![32u8]
            + app_smt2(app, preds),
{
    if !tp[app.pred as int] && fp[app.pred as int] {
        assert(seq![32u8] + lit_false() =~= seq![32u8, 102u8, 97u8, 108u8, 115u8, 101u8]);
    }
}

} // verus!
