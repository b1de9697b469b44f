//! The teacher's decisions: which candidates to check first, what to define
//! and which clauses to check for a candidate, how a model becomes a
//! counterexample, how learner messages are handled, and the teaching loop.
//!
//! The solver and the learners are driven by the caller, which performs the
//! actions decided here and reports what came back.

use vstd::prelude::*;

use crate::instance::{Clause, Instance, TTerms, VarInfo};
use crate::smt2::{conj_smt2, write_conj};
use crate::term::{spec_default_val, Term, Val};

verus! {

/// Candidates for the predicates of an instance: `None` for predicates with a
/// forced definition.
pub type Candidates = Vec<Option<Term>>;

/// The predicates a forced definition applies are among the first `n`.
pub open spec fn tterms_preds_in(t: Option<TTerms>, n: nat) -> bool {
    match t {
        Some(TTerms::Conj { apps, .. }) => forall|k: int| 0 <= k < apps@.len() ==> (#[trigger] apps@[k]).pred < n,
        _ => true,
    }
}

/// Well-formedness of an instance for the teacher: the sorted forced
/// predicates are predicates with a forced-definition slot, and forced
/// definitions apply known predicates.
pub open spec fn instance_wf(inst: Instance) -> bool {
    &&& forall|i: int|
        0 <= i < inst.sorted_forced@.len() ==> {
            &&& (#[trigger] inst.sorted_forced@[i]) < inst.preds@.len()
            &&& inst.sorted_forced@[i] < inst.forced@.len()
        }
    &&& forall|p: int| 0 <= p < inst.forced@.len() ==> tterms_preds_in(#[trigger] inst.forced@[p], inst.preds@.len())
}

/// The candidate of the initial check for a predicate: none if it has a forced
/// definition, `true` otherwise.
pub open spec fn initial_candidate(inst: Instance, p: int) -> Option<Term> {
    if inst.forced@[p] is Some {
        None
    } else {
        Some(Term::Bool(true))
    }
}

/// Candidates of the initial check, where all candidates are `true`.
pub fn initial_candidates(instance: &Instance) -> (cands: Candidates)
    requires
        instance.forced@.len() >= instance.preds@.len(),
    ensures
        cands@.len() == instance.preds@.len(),
        forall|p: int| 0 <= p < cands@.len() ==> #[trigger] cands@[p] == initial_candidate(*instance, p),
{
    let mut cands: Candidates = Vec::new();
    let mut p: usize = 0;
    while p < instance.preds.len()
        invariant
            instance.forced@.len() >= instance.preds@.len(),
            p <= instance.preds@.len(),
            cands@.len() == p,
            forall|q: int| 0 <= q < p ==> #[trigger] cands@[q] == initial_candidate(*instance, q),
        decreases instance.preds.len() - p,
    {
        if instance.forced[p].is_some() {
            cands.push(None);
        } else {
            cands.push(Some(Term::Bool(true)));
        }
        p = p + 1;
    }
    cands
}

/// Whether the candidate of predicate `p` is the constant `b`.
pub open spec fn cand_is(cands: Seq<Option<Term>>, p: usize, b: bool) -> bool {
    &&& (p as int) < cands.len()
    &&& cands[p as int] == Some(Term::Bool(b))
}

/// Whether a clause is trivially true for some candidates: its rhs is a
/// predicate whose candidate is `true`, or its lhs applies a predicate whose
/// candidate is `false`.
pub open spec fn clause_ignored(c: Clause, cands: Seq<Option<Term>>) -> bool {
    ||| (c.rhs matches Some(app) && cand_is(cands, app.pred, true))
    ||| exists|k: int| 0 <= k < c.lhs_preds@.len() && cand_is(cands, (#[trigger] c.lhs_preds@[k]).pred, false)
}

/// The clauses among the first `n` that are not trivially true, in order.
pub open spec fn clauses_to_check(clauses: Seq<Clause>, cands: Seq<Option<Term>>, n: int) -> Seq<usize>
    decreases n,
{
    if n <= 0 {
        Seq::empty()
    } else {
        let prev = clauses_to_check(clauses, cands, n - 1);
        if clause_ignored(clauses[n - 1], cands) {
            prev
        } else {
            prev.push((n - 1) as usize)
        }
    }
}

/// A predicate definition to give to the solver before looking for
/// counterexamples.
#[derive(Clone, Copy, Debug, PartialEq, Eq, Structural)]
pub enum Definition {
    /// Define the predicate by its candidate.
    Candidate(usize),
    /// Define the predicate by its forced definition.
    Forced(usize),
}

/// Whether a candidate is a term that is not a boolean constant.
pub open spec fn non_trivial(t: Option<Term>) -> bool {
    t matches Some(term) && !(term is Bool)
}

/// The predicates among the first `n` whose candidate must be defined, in
/// order.
pub open spec fn candidate_defs(cands: Seq<Option<Term>>, n: int) -> Seq<Definition>
    decreases n,
{
    if n <= 0 {
        Seq::empty()
    } else {
        let prev = candidate_defs(cands, n - 1);
        if non_trivial(cands[n - 1]) {
            prev.push(Definition::Candidate((n - 1) as usize))
        } else {
            prev
        }
    }
}

/// The forced predicates among the first `n` sorted ones whose definition
/// must be given, in order.
pub open spec fn forced_defs(inst: Instance, n: int) -> Seq<Definition>
    decreases n,
{
    if n <= 0 {
        Seq::empty()
    } else {
        let prev = forced_defs(inst, n - 1);
        let p = inst.sorted_forced@[n - 1];
        if inst.forced@[p as int] matches Some(TTerms::Conj { .. }) {
            prev.push(Definition::Forced(p))
        } else {
            prev
        }
    }
}

/// Whether a sorted forced predicate among the first `n` has a forced
/// definition of kind `True` (or `False` when `b` is false).
pub open spec fn forced_is(inst: Instance, p: int, b: bool) -> bool {
    &&& exists|i: int| 0 <= i < inst.sorted_forced@.len() && inst.sorted_forced@[i] == p
    &&& if b {
        inst.forced@[p] matches Some(TTerms::True)
    } else {
        inst.forced@[p] matches Some(TTerms::False)
    }
}

/// Whether predicate `q` is known to be `true` (`false` when `b` is false)
/// once the first `i` sorted forced predicates are handled: by its
/// candidate, or by its forced definition if it is among them.
pub open spec fn known_is(inst: Instance, cands: Seq<Option<Term>>, i: int, q: int, b: bool) -> bool {
    ||| cand_is(cands, q as usize, b)
    ||| exists|j: int|
        0 <= j < i && inst.sorted_forced@[j] == q && if b {
            inst.forced@[q] matches Some(TTerms::True)
        } else {
            inst.forced@[q] matches Some(TTerms::False)
        }
}

/// For each predicate, whether it is known `true` (`false` when `b` is false)
/// once the first `i` sorted forced predicates are handled.
pub open spec fn known_ctx(inst: Instance, cands: Seq<Option<Term>>, i: int, b: bool) -> Seq<bool> {
    Seq::new(inst.preds@.len(), |q: int| known_is(inst, cands, i, q, b))
}

/// The bodies of the forced definitions among the first `n` sorted forced
/// predicates, in order: each written with the predicates known true or
/// false when it is reached inlined.
pub open spec fn forced_bodies(inst: Instance, cands: Seq<Option<Term>>, n: int) -> Seq<Seq<u8>>
    decreases n,
{
    if n <= 0 {
        Seq::empty()
    } else {
        let prev = forced_bodies(inst, cands, n - 1);
        let p = inst.sorted_forced@[n - 1];
        match inst.forced@[p as int] {
            Some(TTerms::Conj { terms, apps }) => prev.push(
                conj_smt2(
                    terms@,
                    apps@,
                    known_ctx(inst, cands, n - 1, true),
                    known_ctx(inst, cands, n - 1, false),
                    inst.preds@,
                ),
            ),
            _ => prev,
        }
    }
}

/// Some sorted forced predicate has no forced definition.
pub open spec fn forced_inconsistent(inst: Instance) -> bool {
    exists|i: int|
        0 <= i < inst.sorted_forced@.len() && inst.forced@[(#[trigger] inst.sorted_forced@[i]) as int]
            is None
}

/// What the solver must be told to look for counterexamples of some
/// candidates.
pub struct CexPlan {
    /// Predicates known to be `true`.
    pub true_preds: Vec<bool>,
    /// Predicates known to be `false`.
    pub false_preds: Vec<bool>,
    /// Definitions to give, in order.
    pub defs: Vec<Definition>,
    /// The bodies of the forced definitions of `defs`, in order.
    pub forced_bodies: Vec<Vec<u8>>,
    /// The clauses to check, in order.
    pub clauses: Vec<usize>,
}

/// Errors of the teacher.
#[derive(Clone, Copy, Debug, PartialEq, Eq, Structural)]
pub enum TeachError {
    /// A sorted forced predicate has no forced definition.
    InconsistentForced,
    /// A learner was added after the teacher stopped accepting learners.
    LearnerAfterFinalization,
    /// All learners are dead.
    AllLearnersDead,
    /// An event came that the current state does not expect.
    UnexpectedEvent,
}

/// Looks for falsifiable clauses given some candidates: the plan.
///
/// Candidates that are `true` or `false` are not defined: the predicate is
/// recorded as true or false, and the clauses they make trivially true are
/// not checked. Forced predicates are then handled in topological order,
/// each definition written with the predicates known true or false so far
/// inlined.
pub fn plan_cexs(instance: &Instance, cands: &Candidates) -> (r: Result<CexPlan, TeachError>)
    requires
        instance_wf(*instance),
        cands@.len() <= instance.preds@.len(),
    ensures
        r is Err <==> forced_inconsistent(*instance),
        r matches Err(e) ==> e == TeachError::InconsistentForced,
        r matches Ok(plan) ==> {
            &&& plan.true_preds@.len() == instance.preds@.len()
            &&& plan.false_preds@.len() == instance.preds@.len()
            &&& forall|p: int|
                0 <= p < instance.preds@.len() ==> #[trigger] plan.true_preds@[p] == (cand_is(
                    cands@,
                    p as usize,
                    true,
                ) || forced_is(*instance, p, true))
            &&& forall|p: int|
                0 <= p < instance.preds@.len() ==> #[trigger] plan.false_preds@[p] == (cand_is(
                    cands@,
                    p as usize,
                    false,
                ) || forced_is(*instance, p, false))
            &&& plan.defs@ == candidate_defs(cands@, cands@.len() as int) + forced_defs(
                *instance,
                instance.sorted_forced@.len() as int,
            )
            &&& plan.forced_bodies@.len() == forced_bodies(
                *instance,
                cands@,
                instance.sorted_forced@.len() as int,
            ).len()
            &&& forall|k: int|
                0 <= k < plan.forced_bodies@.len() ==> (#[trigger] plan.forced_bodies@[k])@ == forced_bodies(
                    *instance,
                    cands@,
                    instance.sorted_forced@.len() as int,
                )[k]
            &&& plan.clauses@ == clauses_to_check(
                instance.clauses@,
                cands@,
                instance.clauses@.len() as int,
            )
        },
{
    let n = instance.preds.len();
    let mut true_preds: Vec<bool> = Vec::new();
    let mut false_preds: Vec<bool> = Vec::new();
    let mut defs: Vec<Definition> = Vec::new();
    // Define non-forced predicates that are not trivially true or false.
    let mut p: usize = 0;
    while p < n
        invariant
            n == instance.preds@.len(),
            cands@.len() <= n,
            p <= n,
            true_preds@.len() == p,
            false_preds@.len() == p,
            forall|q: int| 0 <= q < p ==> #[trigger] true_preds@[q] == cand_is(cands@, q as usize, true),
            forall|q: int| 0 <= q < p ==> #[trigger] false_preds@[q] == cand_is(cands@, q as usize, false),
            defs@ == candidate_defs(cands@, if p <= cands@.len() { p as int } else { cands@.len() as int }),
        decreases n - p,
    {
        if p < cands.len() {
            let b = match &cands[p] {
                Some(term) => term.bool(),
                None => None,
            };
            true_preds.push(b == Some(true));
            false_preds.push(b == Some(false));
            if cands[p].is_some() && b.is_none() {
                defs.push(Definition::Candidate(p));
            }
        } else {
            true_preds.push(false);
            false_preds.push(false);
        }
        p = p + 1;
    }
    // Define forced predicates in topological order.
    let ghost nd = defs@;
    let mut bodies: Vec<Vec<u8>> = Vec::new();
    let mut i: usize = 0;
    while i < instance.sorted_forced.len()
        invariant
            instance_wf(*instance),
            n == instance.preds@.len(),
            cands@.len() <= n,
            i <= instance.sorted_forced@.len(),
            true_preds@.len() == n,
            false_preds@.len() == n,
            forall|q: int|
                0 <= q < n ==> #[trigger] true_preds@[q] == known_is(*instance, cands@, i as int, q, true),
            forall|q: int|
                0 <= q < n ==> #[trigger] false_preds@[q] == known_is(*instance, cands@, i as int, q, false),
            bodies@.len() == forced_bodies(*instance, cands@, i as int).len(),
            forall|k: int|
                0 <= k < bodies@.len() ==> (#[trigger] bodies@[k])@ == forced_bodies(*instance, cands@, i as int)[k],
            nd == candidate_defs(cands@, cands@.len() as int),
            defs@ == nd + forced_defs(*instance, i as int),
            forall|j: int|
                0 <= j < i ==> instance.forced@[(#[trigger] instance.sorted_forced@[j]) as int] is Some,
        decreases instance.sorted_forced.len() - i,
    {
        let q = instance.sorted_forced[i];
        assert(q < n);
        match &instance.forced[q] {
            None => {
                assert(forced_inconsistent(*instance));
                return Err(TeachError::InconsistentForced);
            },
            Some(TTerms::True) => {
                true_preds.set(q, true);
            },
            Some(TTerms::False) => {
                false_preds.set(q, true);
            },
            Some(TTerms::Conj { terms, apps }) => {
                defs.push(Definition::Forced(q));
                proof {
                    assert(tterms_preds_in(instance.forced@[q as int], n as nat));
                    assert(true_preds@ =~= known_ctx(*instance, cands@, i as int, true));
                    assert(false_preds@ =~= known_ctx(*instance, cands@, i as int, false));
                }
                let mut body: Vec<u8> = Vec::new();
                write_conj(&mut body, terms, apps, &true_preds, &false_preds, &instance.preds);
                let ghost prev = bodies@;
                bodies.push(body);
                proof {
                    assert(body@ =~= conj_smt2(
                        terms@,
                        apps@,
                        known_ctx(*instance, cands@, i as int, true),
                        known_ctx(*instance, cands@, i as int, false),
                        instance.preds@,
                    ));
                    assert forall|k: int| 0 <= k < bodies@.len() implies (#[trigger] bodies@[k])@
                        == forced_bodies(*instance, cands@, i + 1)[k] by {
                        if k < prev.len() {
                            assert(bodies@[k] == prev[k]);
                        }
                    }
                }
            },
        }
        proof {
            assert(defs@ =~= nd + forced_defs(*instance, i + 1));
            assert forall|r: int| 0 <= r < n implies #[trigger] true_preds@[r] == known_is(
                *instance,
                cands@,
                i + 1,
                r,
                true,
            ) by {
                if r == q && instance.forced@[r] matches Some(TTerms::True) {
                    assert(instance.sorted_forced@[i as int] == r);
                }
            }
            assert forall|r: int| 0 <= r < n implies #[trigger] false_preds@[r] == known_is(
                *instance,
                cands@,
                i + 1,
                r,
                false,
            ) by {
                if r == q && instance.forced@[r] matches Some(TTerms::False) {
                    assert(instance.sorted_forced@[i as int] == r);
                }
            }
        }
        i = i + 1;
    }
    assert(!forced_inconsistent(*instance));
    // The clauses that are not trivially true.
    let mut clauses: Vec<usize> = Vec::new();
    let mut c: usize = 0;
    while c < instance.clauses.len()
        invariant
            c <= instance.clauses@.len(),
            clauses@ == clauses_to_check(instance.clauses@, cands@, c as int),
        decreases instance.clauses.len() - c,
    {
        if !is_ignored(&instance.clauses[c], cands) {
            clauses.push(c);
        }
        c = c + 1;
    }
    Ok(CexPlan { true_preds, false_preds, defs, forced_bodies: bodies, clauses })
}

/// Whether a clause is trivially true for some candidates.
fn is_ignored(clause: &Clause, cands: &Candidates) -> (r: bool)
    ensures
        r == clause_ignored(*clause, cands@),
{
    if let Some(app) = &clause.rhs {
        if candidate_is(cands, app.pred, true) {
            return true;
        }
    }
    let mut k: usize = 0;
    while k < clause.lhs_preds.len()
        invariant
            k <= clause.lhs_preds@.len(),
            !(clause.rhs matches Some(app) && cand_is(cands@, app.pred, true)),
            forall|j: int| 0 <= j < k ==> !cand_is(cands@, (#[trigger] clause.lhs_preds@[j]).pred, false),
        decreases clause.lhs_preds.len() - k,
    {
        if candidate_is(cands, clause.lhs_preds[k].pred, false) {
            assert(cand_is(cands@, clause.lhs_preds@[k as int].pred, false));
            return true;
        }
        k = k + 1;
    }
    false
}

/// Whether the candidate of a predicate is a boolean constant.
fn candidate_is(cands: &Candidates, p: usize, b: bool) -> (r: bool)
    ensures
        r == cand_is(cands@, p, b),
{
    if p < cands.len() {
        match &cands[p] {
            Some(t) => t.bool() == Some(b),
            None => false,
        }
    } else {
        false
    }
}

/// The active variables among the first `n`, in order: those to declare
/// before asserting a clause.
pub open spec fn active_upto(vars: Seq<VarInfo>, n: int) -> Seq<usize>
    decreases n,
{
    if n <= 0 {
        Seq::empty()
    } else if vars[n - 1].active {
        active_upto(vars, n - 1).push((n - 1) as usize)
    } else {
        active_upto(vars, n - 1)
    }
}

/// The variables of a clause to declare before asserting it: the active ones,
/// in order.
pub fn active_vars(vars: &Vec<VarInfo>) -> (r: Vec<usize>)
    ensures
        r@ == active_upto(vars@, vars@.len() as int),
{
    let mut r: Vec<usize> = Vec::new();
    let mut i: usize = 0;
    while i < vars.len()
        invariant
            i <= vars@.len(),
            r@ == active_upto(vars@, i as int),
        decreases vars.len() - i,
    {
        if vars[i].active {
            r.push(i);
        }
        i = i + 1;
    }
    r
}

/// The last value a model gives to a variable, if any.
pub open spec fn model_value(model: Seq<(usize, Val)>, var: int) -> Option<Val>
    decreases model.len(),
{
    if model.len() == 0 {
        None
    } else if model.last().0 == var {
        Some(model.last().1)
    } else {
        model_value(model.drop_last(), var)
    }
}

/// Value of a variable in the counterexample built from a model: the value
/// the model gives it, or the default value of its type.
pub open spec fn cex_value(vars: Seq<VarInfo>, model: Seq<(usize, Val)>, var: int) -> Val {
    match model_value(model, var) {
        Some(v) => v,
        None => spec_default_val(vars[var].typ),
    }
}

/// Builds the counterexample of a clause from a model of its negation: every
/// variable gets the value of the model, or the default value of its type.
pub fn cex_of_model(vars: &Vec<VarInfo>, model: &Vec<(usize, Val)>) -> (cex: Vec<Val>)
    requires
        forall|i: int| 0 <= i < model@.len() ==> (#[trigger] model@[i]).0 < vars@.len(),
    ensures
        cex@.len() == vars@.len(),
        forall|v: int| 0 <= v < vars@.len() ==> #[trigger] cex@[v] == cex_value(vars@, model@, v),
{
    let mut cex: Vec<Val> = Vec::new();
    let mut v: usize = 0;
    while v < vars.len()
        invariant
            v <= vars@.len(),
            cex@.len() == v,
            forall|w: int| 0 <= w < v ==> #[trigger] cex@[w] == cex_value(vars@, model@.take(0), w),
        decreases vars.len() - v,
    {
        cex.push(vars[v].typ.default_val());
        v = v + 1;
    }
    let mut i: usize = 0;
    while i < model.len()
        invariant
            i <= model@.len(),
            cex@.len() == vars@.len(),
            forall|j: int| 0 <= j < model@.len() ==> (#[trigger] model@[j]).0 < vars@.len(),
            forall|w: int| 0 <= w < vars@.len() ==> #[trigger] cex@[w] == cex_value(vars@, model@.take(i as int), w),
        decreases model.len() - i,
    {
        let (var, val) = model[i];
        cex.set(var, val);
        proof {
            let m = model@.take(i + 1);
            assert(m.drop_last() =~= model@.take(i as int));
            assert(m.last() == model@[i as int]);
        }
        i = i + 1;
    }
    assert(model@.take(model@.len() as int) =~= model@);
    cex
}


/// Kinds of messages learners send to the teacher.
#[derive(Clone, Copy, Debug, PartialEq, Eq, Structural)]
pub enum FromLearnersKind {
    /// Some text to log.
    Msg,
    /// An error.
    Error,
    /// Statistics.
    Stats,
    /// Candidates.
    Cands,
    /// The learner concluded `unsat`.
    Unsat,
}

/// What to do with a message received while waiting for candidates.
#[derive(Clone, Copy, Debug, PartialEq, Eq, Structural)]
pub enum RecvAction {
    /// Log the lines of the message, then keep waiting.
    LogLines,
    /// Print the error, then keep waiting.
    PrintError,
    /// Print the statistics, then keep waiting.
    PrintStats,
    /// Keep waiting.
    Skip,
    /// Return the candidates of the learner.
    ReturnCands,
    /// Return the `unsat` conclusion of the learner.
    ReturnUnsat,
    /// Return that there are no more learners.
    ReturnNone,
}

/// What `get_candidates` does with a received message (`None` when the
/// channel is closed, i.e. all learners are gone).
pub open spec fn spec_on_message(msg: Option<FromLearnersKind>, stats: bool, verbose: bool) -> RecvAction {
    match msg {
        None => RecvAction::ReturnNone,
        Some(FromLearnersKind::Msg) => if verbose {
            RecvAction::LogLines
        } else {
            RecvAction::Skip
        },
        Some(FromLearnersKind::Error) => RecvAction::PrintError,
        Some(FromLearnersKind::Stats) => if stats {
            RecvAction::PrintStats
        } else {
            RecvAction::Skip
        },
        Some(FromLearnersKind::Cands) => RecvAction::ReturnCands,
        Some(FromLearnersKind::Unsat) => RecvAction::ReturnUnsat,
    }
}

/// Decides what to do with a message received while waiting for candidates.
pub fn on_message(msg: Option<FromLearnersKind>, stats: bool, verbose: bool) -> (r: RecvAction)
    ensures
        r == spec_on_message(msg, stats, verbose),
{
    match msg {
        None => RecvAction::ReturnNone,
        Some(FromLearnersKind::Msg) => if verbose {
            RecvAction::LogLines
        } else {
            RecvAction::Skip
        },
        Some(FromLearnersKind::Error) => RecvAction::PrintError,
        Some(FromLearnersKind::Stats) => if stats {
            RecvAction::PrintStats
        } else {
            RecvAction::Skip
        },
        Some(FromLearnersKind::Cands) => RecvAction::ReturnCands,
        Some(FromLearnersKind::Unsat) => RecvAction::ReturnUnsat,
    }
}

/// A learner known to the teacher.
pub struct LearnerInfo {
    /// Description of the learner.
    pub name: String,
    /// Whether the teacher still sends data to the learner.
    pub connected: bool,
}

/// The teacher's own state: whether it accepts new learners, its learners,
/// and the number of guesses checked so far.
pub struct TeacherCore {
    /// Whether learners may still be added. Becomes `false` when the learning
    /// process starts.
    accepting: bool,
    /// Learners.
    learners: Vec<LearnerInfo>,
    /// Number of guesses.
    count: usize,
}

/// What a `TeacherCore` stands for.
pub struct TeacherView {
    pub accepting: bool,
    pub learners: Seq<(Seq<char>, bool)>,
    pub count: nat,
}

impl View for TeacherCore {
    type V = TeacherView;

    closed spec fn view(&self) -> TeacherView {
        TeacherView {
            accepting: self.accepting,
            learners: self.learners@.map_values(|l: LearnerInfo| (l.name@, l.connected)),
            count: self.count as nat,
        }
    }
}

impl TeacherCore {
    /// Constructor: accepts learners, has none, and has checked no guess.
    pub fn new() -> (r: Self)
        ensures
            r@.accepting,
            r@.learners == Seq::<(Seq<char>, bool)>::empty(),
            r@.count == 0,
    {
        let r = TeacherCore { accepting: true, learners: Vec::new(), count: 0 };
        assert(r@.learners =~= Seq::<(Seq<char>, bool)>::empty());
        r
    }

    /// Index the next learner gets, or an error if the teacher no longer
    /// accepts learners.
    pub fn next_learner(&self) -> (r: Result<usize, TeachError>)
        ensures
            self@.accepting ==> r == Ok::<usize, TeachError>(self@.learners.len() as usize),
            !self@.accepting ==> r == Err::<usize, TeachError>(TeachError::LearnerAfterFinalization),
    {
        if self.accepting {
            Ok(self.learners.len())
        } else {
            Err(TeachError::LearnerAfterFinalization)
        }
    }

    /// Adds a new (connected) learner and gives its index, or an error if the
    /// teacher no longer accepts learners.
    pub fn add_learner(&mut self, name: String) -> (r: Result<usize, TeachError>)
        ensures
            old(self)@.accepting ==> r == Ok::<usize, TeachError>(old(self)@.learners.len() as usize)
                && final(self)@ == (TeacherView {
                learners: old(self)@.learners.push((name@, true)),
                ..old(self)@
            }),
            !old(self)@.accepting ==> r == Err::<usize, TeachError>(TeachError::LearnerAfterFinalization)
                && final(self)@ == old(self)@,
    {
        if !self.accepting {
            return Err(TeachError::LearnerAfterFinalization);
        }
        let ghost before = self@;
        let idx = self.learners.len();
        self.learners.push(LearnerInfo { name, connected: true });
        assert(self@.learners =~= before.learners.push((name@, true)));
        Ok(idx)
    }

    /// Stops accepting learners: the learning process starts.
    pub fn close_intake(&mut self)
        ensures
            final(self)@ == (TeacherView { accepting: false, ..old(self)@ }),
    {
        self.accepting = false;
    }

    /// Disconnects all learners.
    pub fn disconnect_all(&mut self)
        ensures
            final(self)@.accepting == old(self)@.accepting,
            final(self)@.count == old(self)@.count,
            final(self)@.learners.len() == old(self)@.learners.len(),
            forall|i: int|
                0 <= i < final(self)@.learners.len() ==> #[trigger] final(self)@.learners[i] == (
                old(self)@.learners[i].0,
                false,
            ),
    {
        let ghost before = self@;
        let mut i: usize = 0;
        while i < self.learners.len()
            invariant
                i <= self.learners@.len(),
                self.accepting == old(self).accepting,
                self.count == old(self).count,
                self@.learners.len() == before.learners.len(),
                forall|j: int| 0 <= j < i ==> #[trigger] self@.learners[j] == (before.learners[j].0, false),
                forall|j: int| i <= j < self@.learners.len() ==> #[trigger] self@.learners[j] == before.learners[j],
            decreases self.learners.len() - i,
        {
            let name = self.learners[i].name.clone();
            let ghost prev = self@.learners;
            assert(self@.learners[i as int] == before.learners[i as int]);
            assert(self@.learners[i as int].0 == self.learners@[i as int].name@);
            self.learners.set(i, LearnerInfo { name, connected: false });
            assert(self@.learners =~= prev.update(i as int, (before.learners[i as int].0, false)));
            i = i + 1;
        }
    }

    /// Indices of the learners the teacher still sends data to.
    pub fn connected_learners(&self) -> (r: Vec<usize>)
        ensures
            forall|k: int| 0 <= k < r@.len() ==> (#[trigger] r@[k]) < self@.learners.len() && self@.learners[r@[k] as int].1,
            forall|i: int| 0 <= i < self@.learners.len() && #[trigger] self@.learners[i].1 ==> r@.contains(i as usize),
            forall|k: int, l: int| 0 <= k < l < r@.len() ==> r@[k] < r@[l],
    {
        let mut r: Vec<usize> = Vec::new();
        let mut i: usize = 0;
        while i < self.learners.len()
            invariant
                i <= self.learners@.len(),
                forall|k: int| 0 <= k < r@.len() ==> (#[trigger] r@[k]) < i && self@.learners[r@[k] as int].1,
                forall|j: int| 0 <= j < i && #[trigger] self@.learners[j].1 ==> r@.contains(j as usize),
                forall|k: int, l: int| 0 <= k < l < r@.len() ==> r@[k] < r@[l],
            decreases self.learners.len() - i,
        {
            let ghost r0 = r@;
            if self.learners[i].connected {
                r.push(i);
                assert(r@[r@.len() - 1] == i);
            }
            assert forall|j: int| 0 <= j < i + 1 && #[trigger] self@.learners[j].1 implies r@.contains(
                j as usize,
            ) by {
                if j < i {
                    let k = choose|k: int| 0 <= k < r0.len() && r0[k] == j as usize;
                    assert(r@[k] == j as usize);
                } else {
                    assert(r@[r@.len() - 1] == i);
                }
            }
            i = i + 1;
        }
        r
    }

    /// Records that one more guess is checked.
    pub fn record_guess(&mut self)
        requires
            old(self)@.count < usize::MAX,
        ensures
            final(self)@ == (TeacherView { count: old(self)@.count + 1, ..old(self)@ }),
    {
        self.count = self.count + 1;
    }

    /// Number of guesses checked so far.
    pub fn count(&self) -> (r: usize)
        ensures
            r == self@.count,
    {
        self.count
    }

    /// Whether the teacher accepts learners.
    pub fn accepting(&self) -> (r: bool)
        ensures
            r == self@.accepting,
    {
        self.accepting
    }
}

/// Whether no learner is left after a broadcast, given the outcome of each
/// send (`true` when the learner received the data): `true` exactly when no
/// learner received it.
pub fn no_learner_left(sent: &Vec<bool>) -> (r: bool)
    ensures
        r == !(exists|i: int| 0 <= i < sent@.len() && sent@[i]),
{
    let mut i: usize = 0;
    while i < sent.len()
        invariant
            i <= sent@.len(),
            forall|j: int| 0 <= j < i ==> !sent@[j],
        decreases sent.len() - i,
    {
        if sent[i] {
            return false;
        }
        i = i + 1;
    }
    true
}

/// What a successful teaching process concludes.
#[derive(Clone, Copy, Debug, PartialEq, Eq, Structural)]
pub enum TeachOutcome {
    /// The last candidates checked have no counterexample.
    Candidates,
    /// The instance is unsatisfiable.
    Unsat,
}

/// Where the teaching process stands.
#[derive(Clone, Copy, Debug, PartialEq, Eq, Structural)]
pub enum TeachState {
    /// Nothing done yet.
    Start,
    /// The learner is being added.
    AddingLearner,
    /// The initial check (all candidates `true`) is running.
    InitialCheck,
    /// Counterexamples are being turned into learning data; `initial` when
    /// they come from the initial check.
    Registering { initial: bool },
    /// Learning data is being propagated.
    Propagating,
    /// Learning data is being broadcast to the learners.
    Broadcasting,
    /// Waiting for candidates from the learners.
    WaitingCandidates,
    /// Looking for counterexamples of the candidates received.
    CheckingCandidates,
    /// Finalizing the run before concluding.
    Finalizing(TeachOutcome),
    /// Finished.
    Done,
}

/// How registering counterexamples as learning data went.
#[derive(Clone, Copy, Debug, PartialEq, Eq, Structural)]
pub enum Registration {
    /// Registered.
    Done,
    /// Registration showed the instance is unsatisfiable.
    Unsat,
    /// Registration failed with another error.
    Failed,
}

/// What waiting for candidates gave.
#[derive(Clone, Copy, Debug, PartialEq, Eq, Structural)]
pub enum Reception {
    /// A learner sent candidates.
    Candidates,
    /// A learner concluded `unsat`.
    Unsat,
    /// There is no learner left.
    NoLearner,
    /// Waiting failed with an error.
    Failed,
}

/// What the last action gave.
#[derive(Clone, Copy, Debug, PartialEq, Eq, Structural)]
pub enum TeachEvent {
    /// The process starts.
    Started,
    /// Adding the learner succeeded or failed.
    LearnerAdded { ok: bool },
    /// Looking for counterexamples succeeded or failed; `empty` when none was
    /// found.
    CexsFound { ok: bool, empty: bool },
    /// Registering counterexamples gave this.
    Registered(Registration),
    /// Propagating learning data succeeded or failed.
    Propagated { ok: bool },
    /// Broadcasting is over; `none_left` when no learner received the data.
    Broadcast { none_left: bool },
    /// Waiting for candidates gave this.
    CandidatesReceived(Reception),
    /// Finalizing succeeded or failed.
    Finalized { ok: bool },
}

/// What to do next.
#[derive(Clone, Copy, Debug, PartialEq, Eq, Structural)]
pub enum TeachAction {
    /// Add the ICE learner.
    AddLearner,
    /// Run the initial check.
    InitialCheck,
    /// Turn the counterexamples into learning data.
    RegisterCexs,
    /// Propagate the learning data.
    Propagate,
    /// Broadcast the learning data to the learners.
    Broadcast,
    /// Wait for candidates.
    GetCandidates,
    /// Look for counterexamples of the candidates received.
    GetCexs,
    /// Finalize the run.
    Finalize,
    /// Conclude with this outcome.
    Return(TeachOutcome),
    /// Fail with this error.
    FailWith(TeachError),
    /// Fail with the error the last action reported.
    FailWithLast,
}

/// One step of the teaching process: the next state and the next action,
/// given the current state and what the last action gave.
pub open spec fn spec_teach_step(state: TeachState, event: TeachEvent) -> (TeachState, TeachAction) {
    match (state, event) {
        (TeachState::Start, TeachEvent::Started) => (TeachState::AddingLearner, TeachAction::AddLearner),
        (TeachState::AddingLearner, TeachEvent::LearnerAdded { ok }) => if ok {
            (TeachState::InitialCheck, TeachAction::InitialCheck)
        } else {
            (TeachState::Done, TeachAction::FailWithLast)
        },
        (TeachState::InitialCheck, TeachEvent::CexsFound { ok, empty })
        | (TeachState::CheckingCandidates, TeachEvent::CexsFound { ok, empty }) => if !ok {
            (TeachState::Done, TeachAction::FailWithLast)
        } else if empty {
            (TeachState::Finalizing(TeachOutcome::Candidates), TeachAction::Finalize)
        } else {
            (
                TeachState::Registering { initial: state == TeachState::InitialCheck },
                TeachAction::RegisterCexs,
            )
        },
        (TeachState::Registering { initial }, TeachEvent::Registered(reg)) => match reg {
            Registration::Done => if initial {
                (TeachState::Broadcasting, TeachAction::Broadcast)
            } else {
                (TeachState::Propagating, TeachAction::Propagate)
            },
            Registration::Unsat => if initial {
                (TeachState::Done, TeachAction::FailWithLast)
            } else {
                (TeachState::Finalizing(TeachOutcome::Unsat), TeachAction::Finalize)
            },
            Registration::Failed => (TeachState::Done, TeachAction::FailWithLast),
        },
        (TeachState::Propagating, TeachEvent::Propagated { ok }) => if ok {
            (TeachState::Broadcasting, TeachAction::Broadcast)
        } else {
            (TeachState::Done, TeachAction::FailWithLast)
        },
        (TeachState::Broadcasting, TeachEvent::Broadcast { none_left }) => if none_left {
            (TeachState::Done, TeachAction::FailWith(TeachError::AllLearnersDead))
        } else {
            (TeachState::WaitingCandidates, TeachAction::GetCandidates)
        },
        (TeachState::WaitingCandidates, TeachEvent::CandidatesReceived(rec)) => match rec {
            Reception::Candidates => (TeachState::CheckingCandidates, TeachAction::GetCexs),
            Reception::Unsat => (TeachState::Finalizing(TeachOutcome::Unsat), TeachAction::Finalize),
            Reception::NoLearner => (TeachState::Done, TeachAction::FailWith(TeachError::AllLearnersDead)),
            Reception::Failed => (TeachState::Done, TeachAction::FailWithLast),
        },
        (TeachState::Finalizing(outcome), TeachEvent::Finalized { ok }) => if ok {
            (TeachState::Done, TeachAction::Return(outcome))
        } else {
            (TeachState::Done, TeachAction::FailWithLast)
        },
        _ => (TeachState::Done, TeachAction::FailWith(TeachError::UnexpectedEvent)),
    }
}

/// One step of the teaching process.
pub fn teach_step(state: TeachState, event: TeachEvent) -> (r: (TeachState, TeachAction))
    ensures
        r == spec_teach_step(state, event),
{
    match (state, event) {
        (TeachState::Start, TeachEvent::Started) => (TeachState::AddingLearner, TeachAction::AddLearner),
        (TeachState::AddingLearner, TeachEvent::LearnerAdded { ok }) => if ok {
            (TeachState::InitialCheck, TeachAction::InitialCheck)
        } else {
            (TeachState::Done, TeachAction::FailWithLast)
        },
        (TeachState::InitialCheck, TeachEvent::CexsFound { ok, empty })
        | (TeachState::CheckingCandidates, TeachEvent::CexsFound { ok, empty }) => if !ok {
            (TeachState::Done, TeachAction::FailWithLast)
        } else if empty {
            (TeachState::Finalizing(TeachOutcome::Candidates), TeachAction::Finalize)
        } else {
            (
                TeachState::Registering { initial: state == TeachState::InitialCheck },
                TeachAction::RegisterCexs,
            )
        },
        (TeachState::Registering { initial }, TeachEvent::Registered(reg)) => match reg {
            Registration::Done => if initial {
                (TeachState::Broadcasting, TeachAction::Broadcast)
            } else {
                (TeachState::Propagating, TeachAction::Propagate)
            },
            Registration::Unsat => if initial {
                (TeachState::Done, TeachAction::FailWithLast)
            } else {
                (TeachState::Finalizing(TeachOutcome::Unsat), TeachAction::Finalize)
            },
            Registration::Failed => (TeachState::Done, TeachAction::FailWithLast),
        },
        (TeachState::Propagating, TeachEvent::Propagated { ok }) => if ok {
            (TeachState::Broadcasting, TeachAction::Broadcast)
        } else {
            (TeachState::Done, TeachAction::FailWithLast)
        },
        (TeachState::Broadcasting, TeachEvent::Broadcast { none_left }) => if none_left {
            (TeachState::Done, TeachAction::FailWith(TeachError::AllLearnersDead))
        } else {
            (TeachState::WaitingCandidates, TeachAction::GetCandidates)
        },
        (TeachState::WaitingCandidates, TeachEvent::CandidatesReceived(rec)) => match rec {
            Reception::Candidates => (TeachState::CheckingCandidates, TeachAction::GetCexs),
            Reception::Unsat => (TeachState::Finalizing(TeachOutcome::Unsat), TeachAction::Finalize),
            Reception::NoLearner => (TeachState::Done, TeachAction::FailWith(TeachError::AllLearnersDead)),
            Reception::Failed => (TeachState::Done, TeachAction::FailWithLast),
        },
        (TeachState::Finalizing(outcome), TeachEvent::Finalized { ok }) => if ok {
            (TeachState::Done, TeachAction::Return(outcome))
        } else {
            (TeachState::Done, TeachAction::FailWithLast)
        },
        _ => (TeachState::Done, TeachAction::FailWith(TeachError::UnexpectedEvent)),
    }
}

/// The clauses checked for some candidates are exactly those that are not
/// trivially true for them, in increasing order.
pub proof fn law_clauses_to_check(clauses: Seq<Clause>, cands: Seq<Option<Term>>, n: int)
    requires
        0 <= n <= clauses.len(),
        clauses.len() <= usize::MAX,
    ensures
        forall|c: int|
            0 <= c < n ==> (clauses_to_check(clauses, cands, n).contains(c as usize) <==> !clause_ignored(
                #[trigger] clauses[c],
                cands,
            )),
        forall|k: int|
            0 <= k < clauses_to_check(clauses, cands, n).len() ==> (#[trigger] clauses_to_check(
                clauses,
                cands,
                n,
            )[k]) < n,
        forall|k: int, l: int|
            0 <= k < l < clauses_to_check(clauses, cands, n).len() ==> clauses_to_check(clauses, cands, n)[k]
                < clauses_to_check(clauses, cands, n)[l],
    decreases n,
{
    if n > 0 {
        law_clauses_to_check(clauses, cands, n - 1);
        let p = clauses_to_check(clauses, cands, n - 1);
        let r = clauses_to_check(clauses, cands, n);
        assert(((n - 1) as usize) as int == n - 1);
        assert forall|k: int, l: int| 0 <= k < l < r.len() implies r[k] < r[l] by {
            if l < p.len() {
                assert(r[k] == p[k] && r[l] == p[l]);
            } else {
                assert(r[k] == p[k]);
            }
        }
        assert forall|c: int| 0 <= c < n implies (r.contains(c as usize) <==> !clause_ignored(
            #[trigger] clauses[c],
            cands,
        )) by {
            if c < n - 1 {
                if r.contains(c as usize) {
                    let k = choose|k: int| 0 <= k < r.len() && r[k] == c as usize;
                    if k < p.len() {
                        assert(p[k] == r[k]);
                    }
                }
                if p.contains(c as usize) {
                    let k = choose|k: int| 0 <= k < p.len() && p[k] == c as usize;
                    assert(r[k] == p[k]);
                }
            } else {
                if !clause_ignored(clauses[c], cands) {
                    assert(r[r.len() - 1] == c as usize);
                } else if r.contains(c as usize) {
                    let k = choose|k: int| 0 <= k < r.len() && r[k] == c as usize;
                    assert(p[k] < n - 1);
                }
            }
        }
    }
}

/// The teacher returns candidates only right after finding that they have no
/// counterexample and finalizing: two steps before a `Return(Candidates)`
/// there is an empty, successful search for counterexamples.
pub proof fn law_candidates_only_without_cexs(s: TeachState, e1: TeachEvent, e2: TeachEvent)
    requires
        spec_teach_step(spec_teach_step(s, e1).0, e2).1 == TeachAction::Return(TeachOutcome::Candidates),
    ensures
        e1 == (TeachEvent::CexsFound { ok: true, empty: true }),
        s == TeachState::InitialCheck || s == TeachState::CheckingCandidates,
        spec_teach_step(s, e1).1 == TeachAction::Finalize,
        e2 == (TeachEvent::Finalized { ok: true }),
{
}

/// The teacher concludes `unsat` only after a learner concluded `unsat`, or
/// after registering counterexamples of learned candidates showed it; never
/// from the initial check.
pub proof fn law_unsat_sources(s: TeachState, e1: TeachEvent, e2: TeachEvent)
    requires
        spec_teach_step(spec_teach_step(s, e1).0, e2).1 == TeachAction::Return(TeachOutcome::Unsat),
    ensures
        (s == TeachState::WaitingCandidates && e1 == TeachEvent::CandidatesReceived(Reception::Unsat)) || (s
            == (TeachState::Registering { initial: false }) && e1 == TeachEvent::Registered(
            Registration::Unsat,
        )),
        spec_teach_step(s, e1).1 == TeachAction::Finalize,
{
}

/// Teaching fails because all learners are dead exactly when a broadcast
/// reached no learner or no learner is left to send candidates.
pub proof fn law_dead_learners(s: TeachState, e: TeachEvent)
    ensures
        spec_teach_step(s, e).1 == TeachAction::FailWith(TeachError::AllLearnersDead) <==> (s
            == TeachState::Broadcasting && e == (TeachEvent::Broadcast { none_left: true })) || (s
            == TeachState::WaitingCandidates && e == TeachEvent::CandidatesReceived(Reception::NoLearner)),
{
}

/// Once done, the teacher stays done, and every concluding action (return or
/// failure) leads to the done state.
pub proof fn law_done(s: TeachState, e: TeachEvent)
    ensures
        spec_teach_step(TeachState::Done, e) == (TeachState::Done, TeachAction::FailWith(
            TeachError::UnexpectedEvent,
        )),
        (spec_teach_step(s, e).1 is Return || spec_teach_step(s, e).1 is FailWith || spec_teach_step(s, e).1
            is FailWithLast) <==> spec_teach_step(s, e).0 == TeachState::Done,
{
}


/// A clause is left unchecked exactly when it is trivially true for the
/// candidates: the candidate of its rhs predicate is the constant `true`, or
/// the candidate of one of its lhs predicates is the constant `false`. In
/// particular a `false` rhs candidate or a `true` lhs candidate is no reason
/// to skip a clause.
pub proof fn law_clause_checked_iff(clauses: Seq<Clause>, cands: Seq<Option<Term>>, c: int)
    requires
        0 <= c < clauses.len(),
        clauses.len() <= usize::MAX,
    ensures
        clauses_to_check(clauses, cands, clauses.len() as int).contains(c as usize) <==> !(
        (clauses[c].rhs is Some && (clauses[c].rhs.unwrap().pred as int) < cands.len()
            && cands[clauses[c].rhs.unwrap().pred as int] == Some(Term::Bool(true))) || (exists|k: int|
            0 <= k < clauses[c].lhs_preds@.len() && ((#[trigger] clauses[c].lhs_preds@[k]).pred as int)
                < cands.len() && cands[clauses[c].lhs_preds@[k].pred as int] == Some(Term::Bool(false)))),
{
    law_clauses_to_check(clauses, cands, clauses.len() as int);
    let cl = clauses[c];
    if clause_ignored(cl, cands) {
        if !(cl.rhs matches Some(app) && cand_is(cands, app.pred, true)) {
            let k = choose|k: int|
                0 <= k < cl.lhs_preds@.len() && cand_is(cands, (#[trigger] cl.lhs_preds@[k]).pred, false);
            assert(0 <= k < cl.lhs_preds@.len() && (cl.lhs_preds@[k].pred as int) < cands.len()
                && cands[cl.lhs_preds@[k].pred as int] == Some(Term::Bool(false)));
        }
    } else {
        assert forall|k: int|
            0 <= k < cl.lhs_preds@.len() && ((#[trigger] cl.lhs_preds@[k]).pred as int) < cands.len() implies cands[cl.lhs_preds@[k].pred as int]
                != Some(Term::Bool(false)) by {
            assert(!cand_is(cands, cl.lhs_preds@[k].pred, false));
        }
    }
}

/// Learners' conclusions are never dropped: candidates and `unsat` are
/// returned, and a closed channel ends the wait, whatever the flags; errors
/// are always printed. The flags only decide whether log lines and
/// statistics are shown or skipped, and nothing else is ever skipped.
pub proof fn law_message_handling(msg: Option<FromLearnersKind>, stats: bool, verbose: bool)
    ensures
        msg == Some(FromLearnersKind::Unsat) ==> spec_on_message(msg, stats, verbose) == RecvAction::ReturnUnsat,
        msg == Some(FromLearnersKind::Cands) ==> spec_on_message(msg, stats, verbose) == RecvAction::ReturnCands,
        msg == Some(FromLearnersKind::Error) ==> spec_on_message(msg, stats, verbose) == RecvAction::PrintError,
        msg is None ==> spec_on_message(msg, stats, verbose) == RecvAction::ReturnNone,
        spec_on_message(msg, stats, verbose) == RecvAction::ReturnUnsat <==> msg == Some(FromLearnersKind::Unsat),
        spec_on_message(msg, stats, verbose) == RecvAction::ReturnCands <==> msg == Some(FromLearnersKind::Cands),
        spec_on_message(msg, stats, verbose) == RecvAction::Skip <==> (msg == Some(FromLearnersKind::Msg)
            && !verbose) || (msg == Some(FromLearnersKind::Stats) && !stats),
        msg != Some(FromLearnersKind::Msg) && msg != Some(FromLearnersKind::Stats) ==> forall|s2: bool, v2: bool|
            #[trigger] spec_on_message(msg, s2, v2) == spec_on_message(msg, stats, verbose),
{
}


/// The candidates given to the solver as definitions are exactly those that
/// are terms other than a boolean constant, each once, in the order of the
/// predicates.
pub proof fn law_candidate_defs(cands: Seq<Option<Term>>, n: int)
    requires
        0 <= n <= cands.len(),
        cands.len() <= usize::MAX,
    ensures
        forall|p: int|
            0 <= p < n ==> (candidate_defs(cands, n).contains(Definition::Candidate(p as usize)) <==> (
            #[trigger] cands[p] is Some && !(cands[p].unwrap() is Bool))),
        forall|k: int|
            0 <= k < candidate_defs(cands, n).len() ==> (#[trigger] candidate_defs(cands, n)[k]) is Candidate
                && candidate_defs(cands, n)[k]->Candidate_0 < n,
        forall|k: int, l: int|
            0 <= k < l < candidate_defs(cands, n).len() ==> candidate_defs(cands, n)[k]->Candidate_0
                < candidate_defs(cands, n)[l]->Candidate_0,
    decreases n,
{
    if n > 0 {
        law_candidate_defs(cands, n - 1);
        let pr = candidate_defs(cands, n - 1);
        let r = candidate_defs(cands, n);
        assert(((n - 1) as usize) as int == n - 1);
        assert forall|k: int| 0 <= k < r.len() implies (#[trigger] r[k]) is Candidate && r[k]->Candidate_0 < n by {
            if k < pr.len() {
                assert(r[k] == pr[k]);
            }
        }
        assert forall|k: int, l: int| 0 <= k < l < r.len() implies r[k]->Candidate_0 < r[l]->Candidate_0 by {
            if l < pr.len() {
                assert(r[k] == pr[k] && r[l] == pr[l]);
            } else {
                assert(r[k] == pr[k]);
            }
        }
        assert forall|p: int| 0 <= p < n implies (r.contains(Definition::Candidate(p as usize)) <==> (
            #[trigger] cands[p] is Some && !(cands[p].unwrap() is Bool))) by {
            if p < n - 1 {
                if r.contains(Definition::Candidate(p as usize)) {
                    let k = choose|k: int| 0 <= k < r.len() && r[k] == Definition::Candidate(p as usize);
                    if k < pr.len() {
                        assert(pr[k] == r[k]);
                    } else {
                        assert(r[k] == Definition::Candidate((n - 1) as usize));
                    }
                }
                if pr.contains(Definition::Candidate(p as usize)) {
                    let k = choose|k: int| 0 <= k < pr.len() && pr[k] == Definition::Candidate(p as usize);
                    assert(r[k] == pr[k]);
                }
            } else {
                if non_trivial(cands[n - 1]) {
                    assert(r[r.len() - 1] == Definition::Candidate(p as usize));
                } else if r.contains(Definition::Candidate(p as usize)) {
                    let k = choose|k: int| 0 <= k < r.len() && r[k] == Definition::Candidate(p as usize);
                    assert(r[k] == pr[k]);
                    assert(pr[k]->Candidate_0 < n - 1);
                }
            }
        }
    }
}

} // verus!
