use hoice_core::instance::{Clause, Instance, PrdInfo, PredApp, TTerms, VarInfo};
use hoice_core::teacher::{
    active_vars, cex_of_model, initial_candidates, on_message, no_learner_left, plan_cexs, teach_step, Definition,
    FromLearnersKind, Reception, RecvAction, Registration, TeachAction, TeachError, TeachEvent,
    TeachOutcome, TeachState, TeacherCore,
};
use hoice_core::term::{ge, Term, Typ, Val};

fn app(pred: usize) -> PredApp {
    PredApp { pred, args: vec![Term::Var(0)] }
}

fn clause(lhs: Vec<usize>, rhs: Option<usize>) -> Clause {
    Clause {
        vars: vec![VarInfo { typ: Typ::Int, active: true }],
        lhs_terms: vec![],
        lhs_preds: lhs.into_iter().map(app).collect(),
        rhs: rhs.map(app),
    }
}

fn instance(forced: Vec<Option<TTerms>>, sorted_forced: Vec<usize>, clauses: Vec<Clause>) -> Instance {
    Instance {
        max_pred_arity: 1,
        consts: vec![],
        preds: (0..forced.len()).map(|i| PrdInfo { name: format!("p{}", i), sig: vec![Typ::Int] }).collect(),
        qualifiers: vec![],
        forced,
        sorted_forced,
        clauses,
    }
}

#[test]
fn initial_candidates_are_true_except_forced() {
    let inst = instance(vec![None, Some(TTerms::True), None], vec![1], vec![]);
    let cands = initial_candidates(&inst);
    assert_eq!(cands.len(), 3);
    assert!(cands[0].as_ref().unwrap().equals(&Term::Bool(true)));
    assert!(cands[1].is_none());
    assert!(cands[2].as_ref().unwrap().equals(&Term::Bool(true)));
}

#[test]
fn plan_ignores_trivially_true_clauses() {
    // p0 true, p1 false, p2 defined by a term.
    let clauses = vec![
        clause(vec![2], Some(0)), // rhs true: ignored
        clause(vec![1], Some(2)), // lhs has false p1: ignored
        clause(vec![2], None),    // checked
        clause(vec![0], Some(2)), // lhs true p0 is no reason to ignore: checked
    ];
    let inst = instance(vec![None, None, None], vec![], clauses);
    let cands = vec![Some(Term::Bool(true)), Some(Term::Bool(false)), Some(ge(0, 1))];
    let plan = plan_cexs(&inst, &cands).unwrap();
    assert_eq!(plan.true_preds, vec![true, false, false]);
    assert_eq!(plan.false_preds, vec![false, true, false]);
    assert_eq!(plan.defs, vec![Definition::Candidate(2)]);
    assert_eq!(plan.clauses, vec![2, 3]);
}

#[test]
fn plan_handles_forced_predicates_in_order() {
    let inst = instance(
        vec![Some(TTerms::Conj { terms: vec![ge(0, 0)], apps: vec![] }), Some(TTerms::False), Some(TTerms::True), None],
        vec![2, 1, 0],
        vec![clause(vec![], Some(2)), clause(vec![1], None)],
    );
    let cands = vec![None, None, None, Some(ge(0, 3))];
    let plan = plan_cexs(&inst, &cands).unwrap();
    assert_eq!(plan.true_preds, vec![false, false, true, false]);
    assert_eq!(plan.false_preds, vec![false, true, false, false]);
    assert_eq!(plan.defs, vec![Definition::Candidate(3), Definition::Forced(0)]);
    assert_eq!(plan.forced_bodies, vec![b"(and true (>= v0 0))".to_vec()]);
    // Forced true/false predicates do not make clauses ignored.
    assert_eq!(plan.clauses, vec![0, 1]);
}

#[test]
fn plan_rejects_inconsistent_forced_predicates() {
    let inst = instance(vec![None, None], vec![1], vec![]);
    let cands = vec![Some(Term::Bool(true)), None];
    assert!(matches!(plan_cexs(&inst, &cands), Err(TeachError::InconsistentForced)));
}

#[test]
fn cex_takes_model_values_then_defaults() {
    let vars = vec![
        VarInfo { typ: Typ::Int, active: true },
        VarInfo { typ: Typ::Bool, active: false },
        VarInfo { typ: Typ::Int, active: true },
    ];
    let model = vec![(2, Val::I(7)), (0, Val::I(-1)), (2, Val::I(9))];
    let cex = cex_of_model(&vars, &model);
    assert_eq!(cex, vec![Val::I(-1), Val::B(true), Val::I(9)]);
}

#[test]
fn messages_while_waiting() {
    assert_eq!(on_message(None, false, false), RecvAction::ReturnNone);
    assert_eq!(on_message(Some(FromLearnersKind::Cands), false, false), RecvAction::ReturnCands);
    assert_eq!(on_message(Some(FromLearnersKind::Unsat), true, true), RecvAction::ReturnUnsat);
    assert_eq!(on_message(Some(FromLearnersKind::Error), false, false), RecvAction::PrintError);
    assert_eq!(on_message(Some(FromLearnersKind::Stats), true, false), RecvAction::PrintStats);
    assert_eq!(on_message(Some(FromLearnersKind::Stats), false, false), RecvAction::Skip);
    assert_eq!(on_message(Some(FromLearnersKind::Msg), false, true), RecvAction::LogLines);
    assert_eq!(on_message(Some(FromLearnersKind::Msg), false, false), RecvAction::Skip);
}

#[test]
fn broadcast_outcome() {
    assert!(no_learner_left(&vec![]));
    assert!(no_learner_left(&vec![false, false]));
    assert!(!no_learner_left(&vec![false, true]));
}

#[test]
fn teacher_core_lifecycle() {
    let mut t = TeacherCore::new();
    assert_eq!(t.next_learner(), Ok(0));
    assert_eq!(t.add_learner("ice".to_string()), Ok(0));
    assert_eq!(t.next_learner(), Ok(1));
    assert_eq!(t.add_learner("other".to_string()), Ok(1));
    assert_eq!(t.connected_learners(), vec![0, 1]);
    t.close_intake();
    assert!(!t.accepting());
    assert_eq!(t.next_learner(), Err(TeachError::LearnerAfterFinalization));
    assert_eq!(t.add_learner("late".to_string()), Err(TeachError::LearnerAfterFinalization));
    assert_eq!(t.connected_learners(), vec![0, 1]);
    t.record_guess();
    t.record_guess();
    assert_eq!(t.count(), 2);
    t.disconnect_all();
    assert_eq!(t.connected_learners(), Vec::<usize>::new());
}

fn run(events: &[TeachEvent]) -> Vec<TeachAction> {
    let mut state = TeachState::Start;
    let mut actions = vec![];
    for e in events {
        let (s, a) = teach_step(state, *e);
        state = s;
        actions.push(a);
    }
    actions
}

#[test]
fn initial_check_without_cex_returns_candidates() {
    let actions = run(&[
        TeachEvent::Started,
        TeachEvent::LearnerAdded { ok: true },
        TeachEvent::CexsFound { ok: true, empty: true },
        TeachEvent::Finalized { ok: true },
    ]);
    assert_eq!(
        actions,
        vec![
            TeachAction::AddLearner,
            TeachAction::InitialCheck,
            TeachAction::Finalize,
            TeachAction::Return(TeachOutcome::Candidates),
        ]
    );
}

#[test]
fn full_teaching_loop() {
    let actions = run(&[
        TeachEvent::Started,
        TeachEvent::LearnerAdded { ok: true },
        TeachEvent::CexsFound { ok: true, empty: false },
        TeachEvent::Registered(Registration::Done),
        TeachEvent::Broadcast { none_left: false },
        TeachEvent::CandidatesReceived(Reception::Candidates),
        TeachEvent::CexsFound { ok: true, empty: false },
        TeachEvent::Registered(Registration::Done),
        TeachEvent::Propagated { ok: true },
        TeachEvent::Broadcast { none_left: false },
        TeachEvent::CandidatesReceived(Reception::Candidates),
        TeachEvent::CexsFound { ok: true, empty: true },
        TeachEvent::Finalized { ok: true },
    ]);
    assert_eq!(
        actions,
        vec![
            TeachAction::AddLearner,
            TeachAction::InitialCheck,
            TeachAction::RegisterCexs,
            TeachAction::Broadcast,
            TeachAction::GetCandidates,
            TeachAction::GetCexs,
            TeachAction::RegisterCexs,
            TeachAction::Propagate,
            TeachAction::Broadcast,
            TeachAction::GetCandidates,
            TeachAction::GetCexs,
            TeachAction::Finalize,
            TeachAction::Return(TeachOutcome::Candidates),
        ]
    );
}

#[test]
fn unsat_outcomes() {
    let a = run(&[
        TeachEvent::Started,
        TeachEvent::LearnerAdded { ok: true },
        TeachEvent::CexsFound { ok: true, empty: false },
        TeachEvent::Registered(Registration::Done),
        TeachEvent::Broadcast { none_left: false },
        TeachEvent::CandidatesReceived(Reception::Unsat),
        TeachEvent::Finalized { ok: true },
    ]);
    assert_eq!(a[5], TeachAction::Finalize);
    assert_eq!(a[6], TeachAction::Return(TeachOutcome::Unsat));
    let b = run(&[
        TeachEvent::Started,
        TeachEvent::LearnerAdded { ok: true },
        TeachEvent::CexsFound { ok: true, empty: false },
        TeachEvent::Registered(Registration::Done),
        TeachEvent::Broadcast { none_left: false },
        TeachEvent::CandidatesReceived(Reception::Candidates),
        TeachEvent::CexsFound { ok: true, empty: false },
        TeachEvent::Registered(Registration::Unsat),
        TeachEvent::Finalized { ok: true },
    ]);
    assert_eq!(b[8], TeachAction::Return(TeachOutcome::Unsat));
}

#[test]
fn unsat_registration_of_initial_cexs_is_an_error() {
    let a = run(&[
        TeachEvent::Started,
        TeachEvent::LearnerAdded { ok: true },
        TeachEvent::CexsFound { ok: true, empty: false },
        TeachEvent::Registered(Registration::Unsat),
    ]);
    assert_eq!(a[3], TeachAction::FailWithLast);
}

#[test]
fn dead_learners_and_errors() {
    let a = run(&[
        TeachEvent::Started,
        TeachEvent::LearnerAdded { ok: true },
        TeachEvent::CexsFound { ok: true, empty: false },
        TeachEvent::Registered(Registration::Done),
        TeachEvent::Broadcast { none_left: true },
        TeachEvent::Started,
    ]);
    assert_eq!(a[4], TeachAction::FailWith(TeachError::AllLearnersDead));
    assert_eq!(a[5], TeachAction::FailWith(TeachError::UnexpectedEvent));
    let b = run(&[
        TeachEvent::Started,
        TeachEvent::LearnerAdded { ok: true },
        TeachEvent::CexsFound { ok: true, empty: false },
        TeachEvent::Registered(Registration::Done),
        TeachEvent::Broadcast { none_left: false },
        TeachEvent::CandidatesReceived(Reception::NoLearner),
    ]);
    assert_eq!(b[5], TeachAction::FailWith(TeachError::AllLearnersDead));
    let c = run(&[TeachEvent::Started, TeachEvent::LearnerAdded { ok: false }]);
    assert_eq!(c[1], TeachAction::FailWithLast);
    let d = run(&[TeachEvent::Finalized { ok: true }]);
    assert_eq!(d[0], TeachAction::FailWith(TeachError::UnexpectedEvent));
}

#[test]
fn only_active_variables_are_declared() {
    let vars = vec![
        VarInfo { typ: Typ::Int, active: false },
        VarInfo { typ: Typ::Bool, active: true },
        VarInfo { typ: Typ::Int, active: false },
        VarInfo { typ: Typ::Int, active: true },
    ];
    assert_eq!(active_vars(&vars), vec![1, 3]);
    assert_eq!(active_vars(&vec![]), Vec::<usize>::new());
}

#[test]
fn plan_with_fewer_candidates_than_predicates() {
    let inst = instance(vec![None, None], vec![], vec![clause(vec![1], None)]);
    let cands = vec![Some(Term::Bool(false))];
    let plan = plan_cexs(&inst, &cands).unwrap();
    assert_eq!(plan.false_preds, vec![true, false]);
    assert_eq!(plan.clauses, vec![0]);
}

#[test]
fn forced_definitions_inline_what_is_known_when_reached() {
    // p0 applies p1 (forced false before it), p2 (forced true after it) and
    // p3 (candidate false) and p4 (candidate term); p5 applies p2, after it.
    let conj = |apps: Vec<usize>| TTerms::Conj { terms: vec![ge(0, 1)], apps: apps.into_iter().map(app).collect() };
    let inst = instance(
        vec![Some(conj(vec![1, 2, 3, 4])), Some(TTerms::False), Some(TTerms::True), None, None, Some(conj(vec![2]))],
        vec![1, 0, 2, 5],
        vec![],
    );
    let cands = vec![None, None, None, Some(Term::Bool(false)), Some(ge(0, 2)), None];
    let plan = plan_cexs(&inst, &cands).unwrap();
    assert_eq!(plan.defs, vec![Definition::Candidate(4), Definition::Forced(0), Definition::Forced(5)]);
    assert_eq!(
        plan.forced_bodies,
        vec![
            b"(and true (>= v0 1) false (p2 v0) false (p4 v0))".to_vec(),
            b"(and true (>= v0 1))".to_vec(),
        ]
    );
    assert_eq!(plan.true_preds, vec![false, false, true, false, false, false]);
    assert_eq!(plan.false_preds, vec![false, true, false, true, false, false]);
}
