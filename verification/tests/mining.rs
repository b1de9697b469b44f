use hoice_core::instance::{Instance, PrdInfo};
use hoice_core::mining::{HSample, MiningError, QualValues, QualValuesExt, Qualifiers};
use hoice_core::term::{eq, ge, le, RelOp, Term, Typ, Val};

fn sample(uid: u64, args: Vec<Val>) -> HSample {
    HSample { uid, args }
}

fn instance(max_pred_arity: usize, consts: Vec<i64>, sigs: Vec<usize>, qualifiers: Vec<Term>) -> Instance {
    Instance {
        max_pred_arity,
        consts,
        preds: sigs
            .iter()
            .enumerate()
            .map(|(i, n)| PrdInfo { name: format!("p{}", i), sig: vec![Typ::Int; *n] })
            .collect(),
        qualifiers,
        forced: sigs.iter().map(|_| None).collect(),
        sorted_forced: vec![],
        clauses: vec![],
    }
}

fn quals_of(q: &Qualifiers, pred: usize) -> Vec<(usize, usize)> {
    let mut it = q.of(pred);
    let mut res = vec![];
    while let Some(pos) = it.next(q) {
        res.push(pos);
    }
    res
}

#[test]
fn lazy_eval_of_fresh_values_is_unknown() {
    let v = QualValues::mk(ge(0, 3));
    assert_eq!(v.lazy_eval(&sample(1, vec![Val::I(5)])), None);
}

#[test]
fn eval_computes_and_caches() {
    // `eval` answers whether the qualifier evaluates to false.
    let mut v = QualValues::mk(ge(0, 3));
    let s = sample(1, vec![Val::I(5)]);
    assert!(!v.eval(&s));
    assert_eq!(v.lazy_eval(&s), Some(false));
    let t = sample(2, vec![Val::I(2)]);
    assert!(v.eval(&t));
    assert_eq!(v.lazy_eval(&t), Some(true));
    // Evaluating again gives the same answer.
    assert!(v.eval(&t));
    assert!(!v.eval(&s));
}

#[test]
fn eval_returns_the_cached_value() {
    // The cache is trusted: a sample recorded as false stays false.
    let mut v = QualValues::mk(ge(0, 3));
    v.add(sample(7, vec![Val::I(10)]), false);
    assert!(v.eval(&sample(7, vec![Val::I(10)])));
}

#[test]
fn add_true_takes_precedence() {
    let mut v = QualValues::mk(le(0, 3));
    let s = sample(3, vec![Val::I(0)]);
    v.add(sample(3, vec![Val::I(0)]), false);
    assert_eq!(v.lazy_eval(&s), Some(true));
    v.add(sample(3, vec![Val::I(0)]), true);
    assert_eq!(v.lazy_eval(&s), Some(false));
    // Other samples are not affected.
    assert_eq!(v.lazy_eval(&sample(4, vec![Val::I(0)])), None);
}

#[test]
fn mk_generates_comparisons_with_constants() {
    let inst = instance(2, vec![0, 5], vec![1, 2], vec![]);
    let q = Qualifiers::mk(&inst).unwrap();
    // Two variables, two constants, three comparisons each.
    assert_eq!(q.count(), 12);
    // One slot per variable of the largest predicate.
    let arities = q.qualifiers();
    assert_eq!(arities.len(), 2);
    assert_eq!(arities[0].len(), 6);
    assert_eq!(arities[1].len(), 6);
    assert!(arities[0][0].qual().equals(&ge(0, 0)));
    assert!(arities[0][1].qual().equals(&le(0, 0)));
    assert!(arities[0][2].qual().equals(&eq(0, 0)));
    assert!(arities[0][3].qual().equals(&ge(0, 5)));
    assert!(arities[1][5].qual().equals(&eq(1, 5)));
}

#[test]
fn mk_merges_duplicate_constants() {
    let inst = instance(1, vec![3, 3], vec![1], vec![]);
    let q = Qualifiers::mk(&inst).unwrap();
    assert_eq!(q.count(), 3);
}

#[test]
fn mk_adds_instance_qualifiers_by_arity() {
    let extra = Term::Rel(RelOp::Lt, Box::new(Term::Var(0)), Box::new(Term::Var(1)));
    let inst = instance(2, vec![], vec![2], vec![extra.clone()]);
    let q = Qualifiers::mk(&inst).unwrap();
    assert_eq!(q.count(), 1);
    assert_eq!(q.qualifiers()[1].len(), 1);
    assert!(q.get(1, 0).qual().equals(&extra));
}

#[test]
fn mk_rejects_constant_qualifier() {
    let inst = instance(1, vec![1], vec![1], vec![Term::Bool(true)]);
    assert!(matches!(Qualifiers::mk(&inst), Err(MiningError::ConstantQualifier)));
}

#[test]
fn add_quals_stops_at_first_constant_qualifier() {
    let inst = instance(2, vec![], vec![2], vec![]);
    let mut q = Qualifiers::mk(&inst).unwrap();
    let r = q.add_quals(vec![ge(0, 1), Term::Int(4), ge(1, 1)]);
    assert_eq!(r, Err(MiningError::ConstantQualifier));
    // The qualifier before the constant one was added, not the one after.
    assert_eq!(q.count(), 1);
    assert_eq!(q.qualifiers()[0].len(), 1);
    assert_eq!(q.qualifiers()[1].len(), 0);
}

#[test]
fn add_qual_values_replaces_existing_qualifier() {
    let inst = instance(1, vec![2], vec![1], vec![]);
    let mut q = Qualifiers::mk(&inst).unwrap();
    let mut v = QualValues::mk(ge(0, 2));
    v.add(sample(9, vec![Val::I(4)]), true);
    assert_eq!(q.add_qual_values(vec![v]), Ok(()));
    assert_eq!(q.count(), 3);
    // The sample recorded true: the qualifier is not false on it.
    assert_eq!(q.get(0, 0).lazy_eval(&sample(9, vec![])), Some(false));
}

#[test]
fn iteration_respects_arity_and_blacklist() {
    let inst = instance(2, vec![1], vec![1, 2], vec![]);
    let mut q = Qualifiers::mk(&inst).unwrap();
    assert_eq!(quals_of(&q, 0), vec![(0, 0), (0, 1), (0, 2)]);
    assert_eq!(quals_of(&q, 1).len(), 6);
    q.blacklist(&le(0, 1));
    assert!(q.is_blacklisted(&le(0, 1)));
    assert_eq!(quals_of(&q, 0), vec![(0, 0), (0, 2)]);
    q.clear_blacklist();
    assert!(!q.is_blacklisted(&le(0, 1)));
    assert_eq!(quals_of(&q, 0), vec![(0, 0), (0, 1), (0, 2)]);
}

#[test]
fn iteration_is_exhausted_afterwards() {
    let inst = instance(1, vec![1], vec![1], vec![]);
    let q = Qualifiers::mk(&inst).unwrap();
    let mut it = q.of(0);
    for _ in 0..3 {
        assert!(it.next(&q).is_some());
    }
    assert_eq!(it.next(&q), None);
    assert_eq!(it.next(&q), None);
}

#[test]
fn eval_qual_caches_in_place() {
    let inst = instance(1, vec![5], vec![1], vec![]);
    let mut q = Qualifiers::mk(&inst).unwrap();
    let s = sample(1, vec![Val::I(5)]);
    // (0, 2) is `v0 = 5`, true on the sample: not false.
    assert!(!q.eval_qual(0, 2, &s));
    assert_eq!(q.get(0, 2).lazy_eval(&s), Some(false));
    assert_eq!(q.get(0, 0).lazy_eval(&s), None);
    // (0, 0) is `v0 >= 5`, true too; (0, 1) is `v0 <= 5`, true too.
    let t = sample(2, vec![Val::I(7)]);
    assert!(q.eval_qual(0, 1, &t));
    assert_eq!(q.get(0, 1).lazy_eval(&t), Some(true));
}

#[test]
fn brush_removes_stale_qualifiers_and_keeps_chosen_ones() {
    let inst = instance(1, vec![1], vec![1], vec![]);
    let mut q = Qualifiers::mk(&inst).unwrap();
    // Threshold 0: only chosen qualifiers survive.
    let brushed = q.brush_quals(vec![le(0, 1)], 0);
    assert_eq!(brushed, 2);
    assert_eq!(q.count(), 1);
    assert!(q.get(0, 0).qual().equals(&le(0, 1)));
}

#[test]
fn brush_counts_decay_across_iterations() {
    let inst = instance(1, vec![1], vec![1], vec![]);
    let mut q = Qualifiers::mk(&inst).unwrap();
    // Decays become 1, nobody removed with threshold 1.
    assert_eq!(q.brush_quals(vec![], 1), 0);
    // `v0 >= 1` chosen: decay back to 0; the others reach 2 and go.
    assert_eq!(q.brush_quals(vec![ge(0, 1)], 1), 2);
    assert_eq!(q.count(), 1);
    assert!(q.get(0, 0).qual().equals(&ge(0, 1)));
    // Count is conserved: brushed + remaining == before.
    let before = q.count();
    let brushed = q.brush_quals(vec![], 0);
    assert_eq!(brushed + q.count(), before);
    assert_eq!(q.count(), 0);
}

#[test]
fn chosen_qualifiers_absent_from_the_map_are_ignored() {
    let inst = instance(1, vec![1], vec![1], vec![]);
    let mut q = Qualifiers::mk(&inst).unwrap();
    assert_eq!(q.brush_quals(vec![ge(0, 42)], 5), 0);
    assert_eq!(q.count(), 3);
}

#[test]
fn iteration_stays_within_the_predicate_variables() {
    let inst = instance(3, vec![0], vec![2, 3], vec![]);
    let q = Qualifiers::mk(&inst).unwrap();
    assert_eq!(q.qualifiers().len(), 3);
    // A predicate of arity 2 sees the slots of `v0` and `v1` only.
    let ps = quals_of(&q, 0);
    assert_eq!(ps, vec![(0, 0), (0, 1), (0, 2), (1, 0), (1, 1), (1, 2)]);
    for (a, i) in ps {
        assert_eq!(q.get(a, i).qual().highest_var(), Some(a));
        assert!(a < 2);
    }
    assert_eq!(quals_of(&q, 1).len(), 9);
}

#[test]
fn iteration_stays_exhausted_on_short_maps() {
    // A predicate wider than the map: the iterator ends and stays ended.
    let inst = instance(1, vec![1], vec![4], vec![]);
    let q = Qualifiers::mk(&inst).unwrap();
    let mut it = q.of(0);
    let mut n = 0;
    while it.next(&q).is_some() {
        n += 1;
    }
    assert_eq!(n, 3);
    assert_eq!(it.next(&q), None);
    assert_eq!(it.next(&q), None);
}

#[test]
fn brush_is_monotone_in_the_threshold() {
    let inst = instance(1, vec![1, 2], vec![1], vec![]);
    let mut low = Qualifiers::mk(&inst).unwrap();
    let mut high = Qualifiers::mk(&inst).unwrap();
    let _ = low.brush_quals(vec![], 5);
    let _ = high.brush_quals(vec![], 5);
    let _ = low.brush_quals(vec![ge(0, 1)], 1);
    let _ = high.brush_quals(vec![ge(0, 1)], 2);
    assert_eq!(low.count(), 1);
    assert_eq!(high.count(), 6);
    assert!(low.get(0, 0).qual().equals(&ge(0, 1)));
    assert!(high.get(0, 0).qual().equals(&ge(0, 1)));
}

#[test]
fn add_quals_and_add_qual_values_agree() {
    let inst = instance(2, vec![], vec![2], vec![]);
    let mut a = Qualifiers::mk(&inst).unwrap();
    let mut b = Qualifiers::mk(&inst).unwrap();
    let ts = vec![ge(1, 3), le(0, 2), ge(1, 3)];
    assert_eq!(a.add_quals(ts.clone()), Ok(()));
    let vs = ts.iter().map(|t| QualValues::mk(t.clone())).collect();
    assert_eq!(b.add_qual_values(vs), Ok(()));
    assert_eq!(a.count(), 2);
    assert_eq!(b.count(), 2);
    for slot in 0..2 {
        assert_eq!(a.qualifiers()[slot].len(), b.qualifiers()[slot].len());
        for i in 0..a.qualifiers()[slot].len() {
            assert!(a.get(slot, i).qual().equals(b.get(slot, i).qual()));
        }
    }
}
