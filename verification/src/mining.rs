//! Mines an instance for qualifiers.

use std::collections::HashSet;
use vstd::prelude::*;

use crate::instance::{Instance, PrdInfo};
use crate::term::{eq, ge, le, law_eval_comparison, spec_eval, spec_highest_var, RelOp, Term, Val};

verus! {

broadcast use vstd::std_specs::hash::group_hash_axioms;

/// A hash-consed sample: the values of the arguments of a predicate.
///
/// Hash-consing gives each distinct argument vector its own `uid`, which is
/// what identifies a sample in the caches of `QualValues`. Whoever builds
/// samples keeps that correspondence: two samples with the same `uid` have
/// the same arguments. Nothing here checks it; the contracts below are stated
/// over `uid`s, and `eval` on a cached `uid` answers from the cache whatever
/// arguments come with it.
pub struct HSample {
    /// Unique identifier of the sample.
    pub uid: u64,
    /// Values of the arguments.
    pub args: Vec<Val>,
}

/// What a `QualValues` stands for: a qualifier and the samples on which it is
/// known to be true or false.
pub struct QualValuesView {
    pub qual: Term,
    pub trues: Set<u64>,
    pub flses: Set<u64>,
}

/// What `lazy_eval` answers for a sample, that is whether the qualifier
/// evaluates to false on it as far as the caches know: `false` if the sample
/// is in the true set, else `true` if it is in the false set, else nothing.
pub open spec fn spec_lazy_eval(v: QualValuesView, uid: u64) -> Option<bool> {
    if v.trues.contains(uid) {
        Some(false)
    } else if v.flses.contains(uid) {
        Some(true)
    } else {
        None
    }
}

/// The value of the qualifier on some arguments, if it is a boolean.
pub open spec fn spec_qual_value(qual: Term, args: Seq<Val>) -> Option<bool> {
    match spec_eval(qual, args) {
        Some(Val::B(b)) => Some(b),
        _ => None,
    }
}

/// Whether `eval` is defined on a sample: it is cached, or the qualifier
/// evaluates to a boolean on it.
pub open spec fn eval_defined(v: QualValuesView, uid: u64, args: Seq<Val>) -> bool {
    spec_lazy_eval(v, uid) is Some || spec_qual_value(v.qual, args) is Some
}

/// What `eval` answers, that is whether the qualifier evaluates to false on
/// the sample: the cached answer if any, the negation of the qualifier's
/// value on the arguments otherwise.
pub open spec fn spec_eval_result(v: QualValuesView, uid: u64, args: Seq<Val>) -> bool {
    match spec_lazy_eval(v, uid) {
        Some(b) => b,
        None => !spec_qual_value(v.qual, args).unwrap(),
    }
}

/// The view of a `QualValues` after `eval`: unchanged if the sample was
/// cached, with the sample added with the qualifier's value otherwise.
pub open spec fn spec_eval_state(v: QualValuesView, uid: u64, args: Seq<Val>) -> QualValuesView {
    if spec_lazy_eval(v, uid) is Some {
        v
    } else {
        spec_add(v, uid, spec_qual_value(v.qual, args).unwrap())
    }
}

/// The view of a `QualValues` after adding a sample with a value.
pub open spec fn spec_add(v: QualValuesView, uid: u64, val: bool) -> QualValuesView {
    if val {
        QualValuesView { trues: v.trues.insert(uid), ..v }
    } else {
        QualValuesView { flses: v.flses.insert(uid), ..v }
    }
}

/// A fresh `QualValues` view: no sample known.
pub open spec fn spec_fresh(qual: Term) -> QualValuesView {
    QualValuesView { qual, trues: Set::empty(), flses: Set::empty() }
}

/// Stores the (truth) value of a qualifier on some samples.
pub struct QualValues {
    /// The qualifier.
    pub qual: Term,
    /// Samples on which the qualifier evaluates to true.
    true_set: HashSet<u64>,
    /// Samples on which the qualifier evaluates to false.
    flse_set: HashSet<u64>,
}

impl View for QualValues {
    type V = QualValuesView;

    closed spec fn view(&self) -> QualValuesView {
        QualValuesView { qual: self.qual, trues: self.true_set@, flses: self.flse_set@ }
    }
}

impl QualValues {
    /// Constructor.
    pub fn mk(qual: Term) -> (r: Self)
        ensures
            r@ == spec_fresh(qual),
    {
        QualValues { qual, true_set: HashSet::with_capacity(1003), flse_set: HashSet::with_capacity(1003) }
    }

    /// The qualifier.
    pub fn qual(&self) -> (r: &Term)
        ensures
            *r == self@.qual,
    {
        &self.qual
    }
}

/// Operations on the values of a qualifier.
pub trait QualValuesExt: Sized + View<V = QualValuesView> {
    /// Adds a sample for the qualifier.
    fn add(&mut self, s: HSample, val: bool)
        ensures
            final(self)@ == spec_add(old(self)@, s.uid, val),
    ;

    /// Checks whether the qualifier evaluates to false on a sample, caching
    /// the qualifier's value on it.
    fn eval(&mut self, s: &HSample) -> (r: bool)
        requires
            eval_defined(old(self)@, s.uid, s.args@),
        ensures
            r == spec_eval_result(old(self)@, s.uid, s.args@),
            final(self)@ == spec_eval_state(old(self)@, s.uid, s.args@),
    ;

    /// Checks whether the qualifier evaluates to false on a sample. Pure lazy,
    /// will not evaluate the qualifier if it has not already been cached.
    fn lazy_eval(&self, s: &HSample) -> (r: Option<bool>)
        ensures
            r == spec_lazy_eval(self@, s.uid),
    ;
}

impl QualValuesExt for QualValues {
    fn add(&mut self, s: HSample, val: bool) {
        if val {
            let _ = self.true_set.insert(s.uid);
        } else {
            let _ = self.flse_set.insert(s.uid);
        }
    }

    fn eval(&mut self, s: &HSample) -> (r: bool) {
        if let Some(b) = self.lazy_eval(s) {
            b
        } else {
            match self.qual.bool_eval(&s.args) {
                Ok(Some(b)) => {
                    let uid = s.uid;
                    let args = clone_vals(&s.args);
                    self.add(HSample { uid, args }, b);
                    !b
                },
                // Unreachable: the sample is either cached or evaluable.
                _ => false,
            }
        }
    }

    fn lazy_eval(&self, s: &HSample) -> (r: Option<bool>) {
        if self.true_set.contains(&s.uid) {
            Some(false)
        } else if self.flse_set.contains(&s.uid) {
            Some(true)
        } else {
            None
        }
    }
}

/// Copies a vector of terms.
fn clone_terms(v: &Vec<Term>) -> (r: Vec<Term>)
    ensures
        r@ == v@,
{
    let mut r: Vec<Term> = Vec::new();
    for i in 0..v.len()
        invariant
            r@ == v@.take(i as int),
    {
        r.push(v[i].clone());
        proof {
            assert(v@.take(i + 1) =~= v@.take(i as int).push(v@[i as int]));
        }
    }
    proof {
        assert(v@.take(v@.len() as int) =~= v@);
    }
    r
}

/// Copies a vector of values.
fn clone_vals(v: &Vec<Val>) -> (r: Vec<Val>)
    ensures
        r@ == v@,
{
    let mut r: Vec<Val> = Vec::new();
    for i in 0..v.len()
        invariant
            r@ == v@.take(i as int),
    {
        r.push(v[i]);
        proof {
            assert(v@.take(i + 1) =~= v@.take(i as int).push(v@[i as int]));
        }
    }
    proof {
        assert(v@.take(v@.len() as int) =~= v@);
    }
    r
}


/// A qualifier of a `Qualifiers` with its decay: the number of iterations, up
/// to now, in which it has **not** been chosen.
pub struct QualEntry {
    pub values: QualValuesView,
    pub decay: usize,
}

/// What a `Qualifiers` stands for.
pub struct QualifiersView {
    /// For each slot `k`, the qualifiers of arity `k + 1`.
    pub arities: Seq<Seq<QualEntry>>,
    /// Arity of each predicate.
    pub pred_to_arity: Seq<usize>,
    /// Blacklisted qualifiers.
    pub blacklist: Set<Term>,
}

/// The entries of a slot, from its qualifier values and their decays.
pub open spec fn entries(quals: Seq<QualValues>, decays: Seq<usize>) -> Seq<QualEntry> {
    Seq::new(quals.len(), |i: int| QualEntry { values: quals[i]@, decay: decays[i] })
}

/// Number of qualifiers in all arities.
pub open spec fn spec_count(arities: Seq<Seq<QualEntry>>) -> nat
    decreases arities.len(),
{
    if arities.len() == 0 {
        0
    } else {
        spec_count(arities.drop_last()) + arities.last().len()
    }
}

/// Slot of a qualifier: its highest variable. Slot `k` holds the qualifiers
/// of arity `k + 1`, those over the variables `v0` to `v<k>`.
pub open spec fn qual_slot(t: Term) -> int {
    spec_highest_var(t).unwrap() as int
}

/// Whether a qualifier has variables (only those can be stored).
pub open spec fn non_constant(t: Term) -> bool {
    spec_highest_var(t) is Some
}

/// No qualifier occurs twice in the entries of a slot.
pub open spec fn slot_unique(s: Seq<QualEntry>) -> bool {
    forall|i: int, j: int|
        0 <= i < s.len() && 0 <= j < s.len() && i != j ==> s[i].values.qual != s[j].values.qual
}

/// Well-formedness of the view of a `Qualifiers`: each qualifier sits in
/// the slot of its highest variable, no qualifier occurs twice, and the
/// number of qualifiers fits in a `usize`.
pub open spec fn view_wf(v: QualifiersView) -> bool {
    &&& forall|a: int, i: int|
        0 <= a < v.arities.len() && 0 <= i < v.arities[a].len() ==> {
            &&& non_constant(#[trigger] v.arities[a][i].values.qual)
            &&& qual_slot(v.arities[a][i].values.qual) == a
        }
    &&& forall|a: int| 0 <= a < v.arities.len() ==> slot_unique(#[trigger] v.arities[a])
    &&& spec_count(v.arities) <= usize::MAX
}

/// Whether a slot holds a qualifier.
pub open spec fn slot_has(s: Seq<QualEntry>, t: Term) -> bool {
    exists|i: int| 0 <= i < s.len() && s[i].values.qual == t
}

/// Position of a qualifier in a slot.
pub open spec fn slot_index(s: Seq<QualEntry>, t: Term) -> int {
    choose|i: int| 0 <= i < s.len() && s[i].values.qual == t
}

/// Inserting qualifier values in a slot: replaces the entry of the same
/// qualifier if there is one, appends otherwise; the decay is reset to zero.
pub open spec fn slot_insert(s: Seq<QualEntry>, q: QualValuesView) -> Seq<QualEntry> {
    let e = QualEntry { values: q, decay: 0 };
    if slot_has(s, q.qual) {
        s.update(slot_index(s, q.qual), e)
    } else {
        s.push(e)
    }
}

/// Inserting qualifier values in their slot.
pub open spec fn view_insert(v: QualifiersView, q: QualValuesView) -> QualifiersView {
    let a = qual_slot(q.qual);
    QualifiersView { arities: v.arities.update(a, slot_insert(v.arities[a], q)), ..v }
}

/// Inserting a sequence of qualifier values, in order.
pub open spec fn view_insert_all(v: QualifiersView, qs: Seq<QualValuesView>) -> QualifiersView
    decreases qs.len(),
{
    if qs.len() == 0 {
        v
    } else {
        view_insert(view_insert_all(v, qs.drop_last()), qs.last())
    }
}

/// The qualifiers in `qs` before the first constant one fit the arities of
/// `v`.
pub open spec fn fit_before_constant(v: QualifiersView, qs: Seq<QualValuesView>) -> bool {
    forall|i: int|
        0 <= i < qs.len() && (forall|j: int| 0 <= j < i ==> non_constant(#[trigger] qs[j].qual))
            && non_constant(qs[i].qual) ==> qual_slot(#[trigger] qs[i].qual) < v.arities.len()
}

/// The views of a sequence of qualifier values.
pub open spec fn values_views(qs: Seq<QualValues>) -> Seq<QualValuesView> {
    qs.map_values(|q: QualValues| q@)
}

/// Fresh views of a sequence of qualifiers.
pub open spec fn fresh_views(ts: Seq<Term>) -> Seq<QualValuesView> {
    ts.map_values(|t: Term| spec_fresh(t))
}


/// Decay of an entry after an iteration in which the qualifiers of `chosen`
/// were chosen: zero if it was chosen, one more otherwise.
pub open spec fn new_decay(e: QualEntry, chosen: Set<Term>) -> int {
    if chosen.contains(e.values.qual) {
        0
    } else {
        e.decay + 1
    }
}

/// The entries of a slot after brushing: decays are updated, and the
/// entries whose new decay is strictly above `threshold` are removed.
pub open spec fn brush_slot(s: Seq<QualEntry>, chosen: Set<Term>, threshold: usize) -> Seq<QualEntry>
    decreases s.len(),
{
    if s.len() == 0 {
        Seq::empty()
    } else {
        let prev = brush_slot(s.drop_last(), chosen, threshold);
        let e = s.last();
        let d = new_decay(e, chosen);
        if d <= threshold {
            prev.push(QualEntry { values: e.values, decay: d as usize })
        } else {
            prev
        }
    }
}

/// The arities after brushing.
pub open spec fn brush_arities(arities: Seq<Seq<QualEntry>>, chosen: Set<Term>, threshold: usize) -> Seq<
    Seq<QualEntry>,
> {
    Seq::new(arities.len(), |a: int| brush_slot(arities[a], chosen, threshold))
}

/// No decay overflows when updated: entries that are not chosen have a decay
/// below `usize::MAX`.
pub open spec fn decays_can_grow(arities: Seq<Seq<QualEntry>>, chosen: Set<Term>) -> bool {
    forall|a: int, i: int|
        0 <= a < arities.len() && 0 <= i < arities[a].len() && !chosen.contains(
            #[trigger] arities[a][i].values.qual,
        ) ==> arities[a][i].decay < usize::MAX
}

/// Brushing keeps entries of the slot (with updated decays), in order and
/// without duplicates, and never makes a slot longer.
proof fn lemma_brush_slot(s: Seq<QualEntry>, chosen: Set<Term>, threshold: usize)
    requires
        slot_unique(s),
    ensures
        slot_unique(brush_slot(s, chosen, threshold)),
        brush_slot(s, chosen, threshold).len() <= s.len(),
        forall|i: int|
            0 <= i < brush_slot(s, chosen, threshold).len() ==> exists|j: int|
                0 <= j < s.len() && s[j].values == (#[trigger] brush_slot(
                    s,
                    chosen,
                    threshold,
                )[i]).values,
    decreases s.len(),
{
    if s.len() > 0 {
        let p = s.drop_last();
        assert(slot_unique(p));
        lemma_brush_slot(p, chosen, threshold);
        let r = brush_slot(s, chosen, threshold);
        let pr = brush_slot(p, chosen, threshold);
        assert forall|i: int| 0 <= i < r.len() implies exists|j: int|
            0 <= j < s.len() && s[j].values == (#[trigger] r[i]).values by {
            if i < pr.len() {
                let j = choose|j: int| 0 <= j < p.len() && p[j].values == pr[i].values;
                assert(s[j] == p[j]);
            } else {
                assert(s[s.len() - 1].values == r[i].values);
            }
        }
        assert forall|i: int, k: int|
            0 <= i < r.len() && 0 <= k < r.len() && i != k implies r[i].values.qual
            != r[k].values.qual by {
            if i < pr.len() && k < pr.len() {
            } else if i < pr.len() {
                let j = choose|j: int| 0 <= j < p.len() && p[j].values == pr[i].values;
                assert(s[j] == p[j]);
                assert(s[s.len() - 1].values.qual != s[j].values.qual);
            } else if k < pr.len() {
                let j = choose|j: int| 0 <= j < p.len() && p[j].values == pr[k].values;
                assert(s[j] == p[j]);
                assert(s[s.len() - 1].values.qual != s[j].values.qual);
            }
        }
    }
}

/// Brushing one slot.
fn brush_slot_exec(
    quals: &mut Vec<QualValues>,
    decays: &mut Vec<usize>,
    chosen: &Vec<Term>,
    threshold: usize,
) -> (removed: usize)
    requires
        old(quals).len() == old(decays).len(),
        forall|i: int|
            0 <= i < old(quals)@.len() && !chosen@.to_set().contains(#[trigger] old(quals)@[i]@.qual)
                ==> old(decays)@[i] < usize::MAX,
    ensures
        final(quals).len() == final(decays).len(),
        entries(final(quals)@, final(decays)@) == brush_slot(
            entries(old(quals)@, old(decays)@),
            chosen@.to_set(),
            threshold,
        ),
        removed == old(quals)@.len() - final(quals)@.len(),
{
    let ghost s = entries(quals@, decays@);
    let ghost cs = chosen@.to_set();
    let mut i: usize = 0;
    let mut removed: usize = 0;
    let ghost mut k: int = 0;
    let n = quals.len();
    while i < quals.len()
        invariant
            s.len() == n,
            s == entries(old(quals)@, old(decays)@),
            cs == chosen@.to_set(),
            forall|j: int| 0 <= j < s.len() && !cs.contains(#[trigger] s[j].values.qual) ==> s[j].decay
                < usize::MAX,
            0 <= k <= s.len(),
            quals.len() == decays.len(),
            i == brush_slot(s.take(k), cs, threshold).len(),
            quals.len() == i + (s.len() - k),
            entries(quals@, decays@) == brush_slot(s.take(k), cs, threshold) + s.skip(k),
            removed == k - i,
        decreases quals.len() - i,
    {
        let ghost cur = entries(quals@, decays@);
        let ghost e = s[k];
        assert(cur[i as int] == e);
        let chosen_now = contains_term(chosen, &quals[i].qual);
        assert(quals@[i as int]@.qual == e.values.qual);
        assert(s.take(k + 1).drop_last() =~= s.take(k));
        assert(s.take(k + 1).last() == e);
        let nd = if chosen_now {
            0
        } else {
            decays[i] + 1
        };
        assert(decays@[i as int] == e.decay);
        assert(new_decay(e, cs) == nd as int);
        if nd > threshold {
            assert(brush_slot(s.take(k + 1), cs, threshold) == brush_slot(s.take(k), cs, threshold));
            quals.remove(i);
            decays.remove(i);
            removed = removed + 1;
            proof {
                assert(entries(quals@, decays@) =~= cur.remove(i as int));
                assert(entries(quals@, decays@) =~= brush_slot(s.take(k + 1), cs, threshold) + s.skip(
                    k + 1,
                ));
            }
        } else {
            decays.set(i, nd);
            proof {
                assert(entries(quals@, decays@) =~= cur.update(
                    i as int,
                    QualEntry { values: e.values, decay: nd },
                ));
                assert(brush_slot(s.take(k + 1), cs, threshold) == brush_slot(s.take(k), cs, threshold).push(
                    QualEntry { values: e.values, decay: nd },
                ));
                assert(entries(quals@, decays@) =~= brush_slot(s.take(k + 1), cs, threshold) + s.skip(
                    k + 1,
                ));
            }
            i = i + 1;
        }
        proof {
            k = k + 1;
        }
    }
    assert(s.take(k) =~= s);
    assert(s.skip(k) =~= Seq::<QualEntry>::empty());
    assert(entries(quals@, decays@) =~= brush_slot(s, cs, threshold));
    removed
}

/// Whether a vector of terms contains a term.
fn contains_term(ts: &Vec<Term>, t: &Term) -> (r: bool)
    ensures
        r == ts@.to_set().contains(*t),
{
    let mut i: usize = 0;
    while i < ts.len()
        invariant
            i <= ts.len(),
            forall|j: int| 0 <= j < i ==> ts@[j] != *t,
        decreases ts.len() - i,
    {
        if ts[i].equals(t) {
            assert(ts@.contains(*t));
            return true;
        }
        i = i + 1;
    }
    assert(!ts@.contains(*t));
    false
}


/// The qualifier `v<var> >= cst`.
pub open spec fn spec_ge(var: usize, cst: i64) -> Term {
    Term::Rel(RelOp::Ge, Box::new(Term::Var(var)), Box::new(Term::Int(cst)))
}

/// The qualifier `v<var> <= cst`.
pub open spec fn spec_le(var: usize, cst: i64) -> Term {
    Term::Rel(RelOp::Le, Box::new(Term::Var(var)), Box::new(Term::Int(cst)))
}

/// The qualifier `v<var> = cst`.
pub open spec fn spec_eq(var: usize, cst: i64) -> Term {
    Term::Rel(RelOp::Eq, Box::new(Term::Var(var)), Box::new(Term::Int(cst)))
}

/// The qualifiers generated for a variable: `v >= c`, `v <= c` and `v = c`
/// for each constant `c`, in order.
pub open spec fn gen_terms(var: usize, cs: Seq<i64>) -> Seq<Term>
    decreases cs.len(),
{
    if cs.len() == 0 {
        Seq::empty()
    } else {
        let c = cs.last();
        gen_terms(var, cs.drop_last()) + seq![spec_ge(var, c), spec_le(var, c), spec_eq(var, c)]
    }
}

/// Inserting fresh qualifiers in a slot, in order.
pub open spec fn slot_insert_all(s: Seq<QualEntry>, ts: Seq<Term>) -> Seq<QualEntry>
    decreases ts.len(),
{
    if ts.len() == 0 {
        s
    } else {
        slot_insert(slot_insert_all(s, ts.drop_last()), spec_fresh(ts.last()))
    }
}

/// Arity of a predicate: the length of its signature.
pub open spec fn pred_arity_of(p: PrdInfo) -> usize {
    p.sig@.len() as usize
}

/// The qualifiers generated from an instance before its own qualifiers are
/// added: one slot per variable of the largest predicate, slot `v` holding
/// the qualifiers generated for variable `v` and the constants of the
/// instance.
pub open spec fn mk_base(inst: Instance) -> QualifiersView {
    QualifiersView {
        arities: Seq::new(
            inst.max_pred_arity as nat,
            |a: int| slot_insert_all(Seq::empty(), gen_terms(a as usize, inst.consts@)),
        ),
        pred_to_arity: inst.preds@.map_values(|p: PrdInfo| pred_arity_of(p)),
        blacklist: Set::empty(),
    }
}

/// A count is bounded by the number of slots times a bound on their
/// lengths.
proof fn lemma_count_bound(s: Seq<Seq<QualEntry>>, b: nat)
    requires
        forall|a: int| 0 <= a < s.len() ==> (#[trigger] s[a]).len() <= b,
    ensures
        spec_count(s) <= s.len() * b,
    decreases s.len(),
{
    if s.len() > 0 {
        let p = s.drop_last();
        assert forall|a: int| 0 <= a < p.len() implies (#[trigger] p[a]).len() <= b by {
            assert(p[a] == s[a]);
        }
        lemma_count_bound(p, b);
        assert(s.last().len() <= b);
        assert((s.len() - 1) * b + b == s.len() * b) by (nonlinear_arith)
            requires
                s.len() >= 1,
        ;
    }
}

/// The slot of fresh qualifiers generated for a variable.
fn var_slot(var: usize, consts: &Vec<i64>) -> (r: (Vec<QualValues>, Vec<usize>))
    requires
        consts@.len() * 3 <= usize::MAX,
    ensures
        r.0.len() == r.1.len(),
        entries(r.0@, r.1@) == slot_insert_all(Seq::empty(), gen_terms(var, consts@)),
        slot_unique(entries(r.0@, r.1@)),
        r.0@.len() <= consts@.len() * 3,
        forall|i: int| 0 <= i < r.0@.len() ==> spec_highest_var((#[trigger] r.0@[i])@.qual) == Some(var),
{
    let mut quals: Vec<QualValues> = Vec::new();
    let mut decays: Vec<usize> = Vec::new();
    let mut j: usize = 0;
    assert(entries(quals@, decays@) =~= Seq::<QualEntry>::empty());
    assert(consts@.take(0) =~= Seq::<i64>::empty());
    while j < consts.len()
        invariant
            j <= consts@.len(),
            consts@.len() * 3 <= usize::MAX,
            quals.len() == decays.len(),
            entries(quals@, decays@) == slot_insert_all(Seq::empty(), gen_terms(var, consts@.take(j as int))),
            slot_unique(entries(quals@, decays@)),
            quals@.len() <= j * 3,
            forall|i: int| 0 <= i < quals@.len() ==> spec_highest_var((#[trigger] quals@[i])@.qual) == Some(var),
        decreases consts.len() - j,
    {
        let c = consts[j];
        let ghost s0 = entries(quals@, decays@);
        let ghost q0 = quals@;
        let ghost ts = gen_terms(var, consts@.take(j as int));
        assert(consts@.take(j + 1).drop_last() =~= consts@.take(j as int));
        assert(gen_terms(var, consts@.take(j + 1)) == ts + seq![spec_ge(var, c), spec_le(var, c), spec_eq(var, c)]);
        let ghost t3 = ts + seq![spec_ge(var, c), spec_le(var, c), spec_eq(var, c)];
        assert(t3.drop_last() =~= ts + seq![spec_ge(var, c), spec_le(var, c)]);
        assert(t3.drop_last().drop_last() =~= ts + seq![spec_ge(var, c)]);
        assert(t3.drop_last().drop_last().drop_last() =~= ts);
        assert(slot_insert_all(Seq::empty(), t3) == slot_insert(
            slot_insert(
                slot_insert(slot_insert_all(Seq::empty(), ts), spec_fresh(spec_ge(var, c))),
                spec_fresh(spec_le(var, c)),
            ),
            spec_fresh(spec_eq(var, c)),
        )) by {
            let e = Seq::<QualEntry>::empty();
            let a3 = t3.drop_last();
            let b3 = a3.drop_last();
            assert(t3.last() == spec_eq(var, c));
            assert(a3.last() == spec_le(var, c));
            assert(b3.last() == spec_ge(var, c));
            assert(b3.drop_last() == ts);
            assert(slot_insert_all(e, t3) == slot_insert(slot_insert_all(e, a3), spec_fresh(spec_eq(var, c))));
            assert(slot_insert_all(e, a3) == slot_insert(slot_insert_all(e, b3), spec_fresh(spec_le(var, c))));
            assert(slot_insert_all(e, b3) == slot_insert(slot_insert_all(e, ts), spec_fresh(spec_ge(var, c))));
        }
        assert(spec_highest_var(Term::Var(var)) == Some(var));
        assert(spec_highest_var(Term::Int(c)) == None::<usize>);
        assert(spec_highest_var(spec_ge(var, c)) == Some(var));
        assert(spec_highest_var(spec_le(var, c)) == Some(var));
        assert(spec_highest_var(spec_eq(var, c)) == Some(var));
        proof {
            lemma_slot_insert(s0, spec_fresh(spec_ge(var, c)));
        }
        slot_insert_exec(&mut quals, &mut decays, QualValues::mk(ge(var, c)));
        let ghost s1 = entries(quals@, decays@);
        proof {
            lemma_slot_insert(s1, spec_fresh(spec_le(var, c)));
        }
        slot_insert_exec(&mut quals, &mut decays, QualValues::mk(le(var, c)));
        let ghost s2 = entries(quals@, decays@);
        proof {
            lemma_slot_insert(s2, spec_fresh(spec_eq(var, c)));
        }
        slot_insert_exec(&mut quals, &mut decays, QualValues::mk(eq(var, c)));
        proof {
            let s3 = entries(quals@, decays@);
            assert forall|i: int| 0 <= i < quals@.len() implies spec_highest_var((#[trigger] quals@[i])@.qual) == Some(var) by {
                assert(s3[i].values.qual == quals@[i]@.qual);
                if s3[i].values.qual != spec_eq(var, c) {
                    let k2 = choose|k: int| 0 <= k < s2.len() && s2[k].values.qual == s3[i].values.qual;
                    if s2[k2].values.qual != spec_le(var, c) {
                        let k1 = choose|k: int| 0 <= k < s1.len() && s1[k].values.qual == s2[k2].values.qual;
                        if s1[k1].values.qual != spec_ge(var, c) {
                            let k0 = choose|k: int| 0 <= k < s0.len() && s0[k].values.qual == s1[k1].values.qual;
                            assert(s0[k0].values.qual == q0[k0]@.qual);
                        }
                    }
                }
            }
        }
        j = j + 1;
    }
    assert(consts@.take(j as int) =~= consts@);
    (quals, decays)
}

/// All qualifiers of a sequence have variables.
pub open spec fn all_non_constant(qs: Seq<QualValuesView>) -> bool {
    forall|i: int| 0 <= i < qs.len() ==> non_constant(#[trigger] qs[i].qual)
}

/// The first qualifier without variables of a sequence is at position `k`.
pub open spec fn first_constant_at(qs: Seq<QualValuesView>, k: int) -> bool {
    &&& 0 <= k < qs.len()
    &&& !non_constant(qs[k].qual)
    &&& forall|j: int| 0 <= j < k ==> non_constant(#[trigger] qs[j].qual)
}

/// Errors of qualifier mining.
#[derive(Debug, PartialEq, Eq, Structural)]
pub enum MiningError {
    /// A qualifier without variables cannot be associated to a slot.
    ConstantQualifier,
}

/// Associates qualifiers to predicates.
///
/// Predicate variables are anonymous, so the qualifiers are the same for
/// everyone. It's just a matter of what the arity of the predicate is. So this
/// structure really stores all the qualifiers for a predicate with arity `1`,
/// then all those for arity `2`, and so on.
///
/// A list of blacklisted qualifiers is also maintained so that one can block
/// qualifiers that have already been chosen. **Do not forget** to clear the
/// blacklist when relevant.
pub struct Qualifiers {
    /// Maps slots to qualifiers: slot `k` holds those of arity `k + 1`.
    arity_map: Vec<Vec<QualValues>>,
    /// Decay of each qualifier, at the same position as in `arity_map`: the
    /// number of times, up to now, that the qualifier has **not** been used.
    decay_map: Vec<Vec<usize>>,
    /// Maps predicates to their arity.
    pred_to_arity: Vec<usize>,
    /// Blacklisted qualifiers.
    blacklist: Vec<Term>,
}

impl View for Qualifiers {
    type V = QualifiersView;

    closed spec fn view(&self) -> QualifiersView {
        QualifiersView {
            arities: Seq::new(
                self.arity_map@.len(),
                |a: int| entries(self.arity_map@[a]@, self.decay_map@[a]@),
            ),
            pred_to_arity: self.pred_to_arity@,
            blacklist: self.blacklist@.to_set(),
        }
    }
}

/// The count of a sequence of arities after replacing one of them.
proof fn lemma_count_update(s: Seq<Seq<QualEntry>>, a: int, x: Seq<QualEntry>)
    requires
        0 <= a < s.len(),
    ensures
        spec_count(s.update(a, x)) == spec_count(s) - s[a].len() + x.len(),
    decreases s.len(),
{
    if a == s.len() - 1 {
        assert(s.update(a, x).drop_last() =~= s.drop_last());
    } else {
        lemma_count_update(s.drop_last(), a, x);
        assert(s.update(a, x).drop_last() =~= s.drop_last().update(a, x));
    }
}

/// The count of a prefix of the arities is at most the total count.
proof fn lemma_count_prefix(s: Seq<Seq<QualEntry>>, k: int)
    requires
        0 <= k <= s.len(),
    ensures
        spec_count(s.take(k)) <= spec_count(s),
    decreases s.len(),
{
    if k < s.len() {
        assert(s.take(k) =~= s.drop_last().take(k));
        lemma_count_prefix(s.drop_last(), k);
    } else {
        assert(s.take(k) =~= s);
    }
}

/// Inserting in a slot keeps it free of duplicates and adds at most one
/// entry.
proof fn lemma_slot_insert(s: Seq<QualEntry>, q: QualValuesView)
    requires
        slot_unique(s),
    ensures
        slot_unique(slot_insert(s, q)),
        slot_insert(s, q).len() <= s.len() + 1,
        forall|i: int|
            0 <= i < slot_insert(s, q).len() ==> #[trigger] slot_insert(s, q)[i].values.qual == q.qual
                || (exists|j: int| 0 <= j < s.len() && s[j].values.qual == slot_insert(s, q)[i].values.qual),
        slot_has(slot_insert(s, q), q.qual),
{
    let r = slot_insert(s, q);
    if slot_has(s, q.qual) {
        let k = slot_index(s, q.qual);
        assert(r[k].values.qual == q.qual);
        assert forall|i: int| 0 <= i < r.len() implies #[trigger] r[i].values.qual == q.qual
            || (exists|j: int| 0 <= j < s.len() && s[j].values.qual == r[i].values.qual) by {
            if i != k {
                assert(s[i].values.qual == r[i].values.qual);
            }
        }
    } else {
        assert(r[s.len() as int].values.qual == q.qual);
        assert forall|i: int| 0 <= i < r.len() implies #[trigger] r[i].values.qual == q.qual
            || (exists|j: int| 0 <= j < s.len() && s[j].values.qual == r[i].values.qual) by {
            if i < s.len() {
                assert(s[i].values.qual == r[i].values.qual);
            }
        }
    }
}

/// Inserting qualifier values keeps the view well-formed.
proof fn lemma_view_insert(v: QualifiersView, q: QualValuesView)
    requires
        view_wf(v),
        non_constant(q.qual),
        qual_slot(q.qual) < v.arities.len(),
        spec_count(v.arities) < usize::MAX,
    ensures
        view_wf(view_insert(v, q)),
        spec_count(view_insert(v, q).arities) <= spec_count(v.arities) + 1,
        view_insert(v, q).pred_to_arity == v.pred_to_arity,
        view_insert(v, q).blacklist == v.blacklist,
{
    let a = qual_slot(q.qual);
    let r = view_insert(v, q);
    assert(slot_unique(v.arities[a]));
    lemma_slot_insert(v.arities[a], q);
    lemma_count_update(v.arities, a, slot_insert(v.arities[a], q));
    assert forall|b: int, i: int|
        0 <= b < r.arities.len() && 0 <= i < r.arities[b].len() implies {
            &&& non_constant(#[trigger] r.arities[b][i].values.qual)
            &&& qual_slot(r.arities[b][i].values.qual) == b
        } by {
        if b == a {
            let t = r.arities[b][i].values.qual;
            if t != q.qual {
                let j = choose|j: int| 0 <= j < v.arities[a].len() && v.arities[a][j].values.qual == t;
                assert(non_constant(v.arities[a][j].values.qual));
            }
        } else {
            assert(r.arities[b][i] == v.arities[b][i]);
        }
    }
    assert forall|b: int| 0 <= b < r.arities.len() implies slot_unique(#[trigger] r.arities[b]) by {
        if b != a {
            assert(r.arities[b] == v.arities[b]);
        }
    }
}

/// Exec counterpart of `slot_insert` on the two vectors of a slot.
fn slot_insert_exec(quals: &mut Vec<QualValues>, decays: &mut Vec<usize>, q: QualValues)
    requires
        old(quals).len() == old(decays).len(),
        slot_unique(entries(old(quals)@, old(decays)@)),
    ensures
        final(quals).len() == final(decays).len(),
        entries(final(quals)@, final(decays)@) == slot_insert(entries(old(quals)@, old(decays)@), q@),
{
    let ghost s = entries(quals@, decays@);
    let ghost qv = q@;
    let mut i: usize = 0;
    while i < quals.len()
        invariant
            i <= quals.len(),
            quals@ == old(quals)@,
            decays@ == old(decays)@,
            s == entries(quals@, decays@),
            qv == q@,
            quals.len() == decays.len(),
            slot_unique(s),
            forall|j: int| 0 <= j < i ==> s[j].values.qual != qv.qual,
        decreases quals.len() - i,
    {
        if quals[i].qual.equals(&q.qual) {
            assert(s[i as int].values.qual == qv.qual);
            assert(slot_has(s, qv.qual));
            let ghost k = slot_index(s, qv.qual);
            assert(k == i) by {
                if k != i {
                    assert(s[k].values.qual == s[i as int].values.qual);
                }
            }
            quals.set(i, q);
            decays.set(i, 0);
            assert(entries(quals@, decays@) =~= slot_insert(s, qv));
            return;
        }
        i = i + 1;
    }
    assert(!slot_has(s, qv.qual));
    quals.push(q);
    decays.push(0);
    assert(entries(quals@, decays@) =~= slot_insert(s, qv));
}

impl Qualifiers {
    /// Well-formedness: the two maps have the same shape and the view is
    /// well-formed.
    pub closed spec fn wf(&self) -> bool {
        &&& self.arity_map@.len() == self.decay_map@.len()
        &&& forall|a: int|
            0 <= a < self.arity_map@.len() ==> (#[trigger] self.arity_map@[a]).len()
                == self.decay_map@[a].len()
        &&& view_wf(self@)
    }

    /// Constructor: the qualifiers generated from the constants of an
    /// instance, plus the instance's own qualifiers.
    pub fn mk(instance: &Instance) -> (r: Result<Qualifiers, MiningError>)
        requires
            instance.consts@.len() * instance.max_pred_arity * 3 + instance.qualifiers@.len()
                <= usize::MAX,
            fit_before_constant(mk_base(*instance), fresh_views(instance.qualifiers@)),
        ensures
            r is Ok <==> all_non_constant(fresh_views(instance.qualifiers@)),
            r matches Ok(q) ==> q.wf() && q@ == view_insert_all(
                mk_base(*instance),
                fresh_views(instance.qualifiers@),
            ),
    {
        let ghost base = mk_base(*instance);
        let ghost nc = instance.consts@.len();
        let mut arity_map: Vec<Vec<QualValues>> = Vec::new();
        let mut decay_map: Vec<Vec<usize>> = Vec::new();
        let mut var_idx: usize = 0;
        while var_idx < instance.max_pred_arity
            invariant
                base == mk_base(*instance),
                nc == instance.consts@.len(),
                nc * instance.max_pred_arity * 3 <= usize::MAX,
                var_idx <= instance.max_pred_arity,
                arity_map@.len() == var_idx,
                decay_map@.len() == var_idx,
                forall|a: int| 0 <= a < arity_map@.len() ==> {
                    &&& (#[trigger] arity_map@[a]).len() == decay_map@[a].len()
                    &&& entries(arity_map@[a]@, decay_map@[a]@) == base.arities[a]
                    &&& arity_map@[a]@.len() <= nc * 3
                    &&& slot_unique(entries(arity_map@[a]@, decay_map@[a]@))
                    &&& forall|i: int|
                        0 <= i < arity_map@[a]@.len() ==> spec_highest_var(
                            (#[trigger] arity_map@[a]@[i])@.qual,
                        ) == Some(a as usize)
                },
            decreases instance.max_pred_arity - var_idx,
        {
            assert(nc * 3 <= usize::MAX) by (nonlinear_arith)
                requires
                    nc * instance.max_pred_arity * 3 <= usize::MAX,
                    var_idx < instance.max_pred_arity,
            ;
            let (q, d) = var_slot(var_idx, &instance.consts);
            let ghost va = var_idx as int;
            assert(entries(q@, d@) == base.arities[va]);
            arity_map.push(q);
            decay_map.push(d);
            var_idx = var_idx + 1;
            assert(arity_map@[va] == q);
        }
        let mut pred_to_arity: Vec<usize> = Vec::new();
        let mut p: usize = 0;
        while p < instance.preds.len()
            invariant
                p <= instance.preds@.len(),
                pred_to_arity@ == instance.preds@.take(p as int).map_values(|pi: PrdInfo| pred_arity_of(pi)),
            decreases instance.preds.len() - p,
        {
            pred_to_arity.push(instance.preds[p].sig.len());
            proof {
                assert(instance.preds@.take(p + 1).map_values(|pi: PrdInfo| pred_arity_of(pi))
                    =~= instance.preds@.take(p as int).map_values(|pi: PrdInfo| pred_arity_of(pi)).push(
                    pred_arity_of(instance.preds@[p as int]),
                ));
            }
            p = p + 1;
        }
        assert(instance.preds@.take(p as int) =~= instance.preds@);
        let mut quals = Qualifiers { arity_map, decay_map, pred_to_arity, blacklist: Vec::new() };
        proof {
            assert(quals@.arities =~= base.arities);
            assert(quals@.blacklist =~= base.blacklist);
            assert(quals@ == base);
            assert forall|a: int, i: int|
                0 <= a < base.arities.len() && 0 <= i < base.arities[a].len() implies {
                    &&& non_constant(#[trigger] base.arities[a][i].values.qual)
                    &&& qual_slot(base.arities[a][i].values.qual) == a
                } by {
                assert(base.arities[a] == entries(quals.arity_map@[a]@, quals.decay_map@[a]@));
                assert(base.arities[a][i].values.qual == quals.arity_map@[a]@[i]@.qual);
            }
            assert forall|a: int| 0 <= a < base.arities.len() implies slot_unique(#[trigger] base.arities[a]) by {
                assert(slot_unique(entries(quals.arity_map@[a]@, quals.decay_map@[a]@)));
            }
            lemma_count_bound(base.arities, nc * 3);
            assert(base.arities.len() * (nc * 3) == nc * instance.max_pred_arity * 3) by (nonlinear_arith)
                requires
                    base.arities.len() == instance.max_pred_arity,
            ;
        }
        let qs = clone_terms(&instance.qualifiers);
        match quals.add_quals(qs) {
            Ok(()) => Ok(quals),
            Err(e) => Err(e),
        }
    }

    /// A well-formed `Qualifiers` has a well-formed view.
    pub proof fn lemma_wf_view(&self)
        requires
            self.wf(),
        ensures
            view_wf(self@),
    {
    }

    /// Number of qualifiers.
    pub fn count(&self) -> (r: usize)
        requires
            self.wf(),
        ensures
            r == spec_count(self@.arities),
    {
        let ghost arities = self@.arities;
        let mut count: usize = 0;
        let mut a: usize = 0;
        while a < self.arity_map.len()
            invariant
                self.wf(),
                arities == self@.arities,
                a <= self.arity_map.len(),
                count == spec_count(arities.take(a as int)),
            decreases self.arity_map.len() - a,
        {
            proof {
                assert(arities.take(a + 1).drop_last() =~= arities.take(a as int));
                lemma_count_prefix(arities, a + 1);
            }
            count = count + self.arity_map[a].len();
            a = a + 1;
        }
        proof {
            assert(arities.take(a as int) =~= arities);
        }
        count
    }

    /// Accessor to the qualifiers, by slot.
    pub fn qualifiers(&self) -> (r: &Vec<Vec<QualValues>>)
        requires
            self.wf(),
        ensures
            r@.len() == self@.arities.len(),
            forall|a: int| 0 <= a < r@.len() ==> (#[trigger] r@[a])@.len() == self@.arities[a].len(),
            forall|a: int, i: int|
                0 <= a < r@.len() && 0 <= i < r@[a]@.len() ==> (#[trigger] r@[a]@[i])@
                    == self@.arities[a][i].values,
    {
        &self.arity_map
    }

    /// Inserts qualifier values in their slot.
    fn insert_values(&mut self, q: QualValues)
        requires
            old(self).wf(),
            non_constant(q@.qual),
            qual_slot(q@.qual) < old(self)@.arities.len(),
            spec_count(old(self)@.arities) < usize::MAX,
        ensures
            final(self).wf(),
            final(self)@ == view_insert(old(self)@, q@),
    {
        let ghost v = self@;
        let ghost qv = q@;
        proof {
            lemma_view_insert(v, qv);
        }
        assert(self@.arities.len() == self.arity_map@.len());
        let n = self.arity_map.len();
        let hv = q.qual.highest_var();
        assert(hv == spec_highest_var(qv.qual));
        let a = hv.unwrap();
        assert(slot_unique(v.arities[a as int]));
        assert(v.arities[a as int] == entries(self.arity_map@[a as int]@, self.decay_map@[a as int]@));
        slot_insert_exec(&mut self.arity_map[a], &mut self.decay_map[a], q);
        assert(self@.arities =~= view_insert(v, qv).arities);
    }

    /// Adds some qualifiers as qualifier values.
    ///
    /// Fails on the first qualifier without variables, after having added
    /// the ones before it.
    pub fn add_qual_values(&mut self, quals: Vec<QualValues>) -> (r: Result<(), MiningError>)
        requires
            old(self).wf(),
            fit_before_constant(old(self)@, values_views(quals@)),
            spec_count(old(self)@.arities) + quals@.len() <= usize::MAX,
        ensures
            final(self).wf(),
            r is Ok <==> all_non_constant(values_views(quals@)),
            r is Ok ==> final(self)@ == view_insert_all(old(self)@, values_views(quals@)),
            r matches Err(e) ==> e == MiningError::ConstantQualifier && exists|k: int|
                first_constant_at(values_views(quals@), k) && final(self)@ == view_insert_all(
                    old(self)@,
                    values_views(quals@).take(k),
                ),
    {
        let ghost qs = values_views(quals@);
        let ghost v0 = self@;
        let mut pending = quals;
        let mut rev: Vec<QualValues> = Vec::new();
        // Reverse so that popping yields the qualifiers in order.
        while pending.len() > 0
            invariant
                rev@.len() + pending@.len() == qs.len(),
                forall|i: int| 0 <= i < pending@.len() ==> (#[trigger] pending@[i])@ == qs[i],
                forall|i: int|
                    0 <= i < rev@.len() ==> (#[trigger] rev@[i])@ == qs[qs.len() - 1 - i],
            decreases pending.len(),
        {
            let q = pending.pop().unwrap();
            rev.push(q);
        }
        let mut done: usize = 0;
        while rev.len() > 0
            invariant
                self.wf(),
                qs == values_views(quals@),
                v0 == old(self)@,
                done + rev@.len() == qs.len(),
                forall|i: int|
                    0 <= i < rev@.len() ==> (#[trigger] rev@[i])@ == qs[qs.len() - 1 - i],
                forall|j: int| 0 <= j < done ==> non_constant(#[trigger] qs[j].qual),
                self@ == view_insert_all(v0, qs.take(done as int)),
                self@.arities.len() == v0.arities.len(),
                spec_count(self@.arities) <= spec_count(v0.arities) + done,
                fit_before_constant(v0, qs),
                spec_count(v0.arities) + qs.len() <= usize::MAX,
            decreases rev.len(),
        {
            let q = rev.pop().unwrap();
            assert(q@ == qs[done as int]);
            if q.qual.highest_var().is_none() {
                assert(!non_constant(qs[done as int].qual));
                assert(0 <= done < qs.len() && !non_constant(qs[done as int].qual) && (forall|j: int|
                    0 <= j < done ==> non_constant(#[trigger] qs[j].qual))
                    && self@ == view_insert_all(v0, qs.take(done as int)));
                assert(first_constant_at(qs, done as int));
                return Err(MiningError::ConstantQualifier);
            }
            let ghost before = self@;
            self.insert_values(q);
            proof {
                lemma_view_insert(before, qs[done as int]);
                assert(qs.take(done + 1).drop_last() =~= qs.take(done as int));
            }
            done = done + 1;
        }
        assert(qs.take(done as int) =~= qs);
        Ok(())
    }

    /// Adds some qualifiers as terms.
    pub fn add_quals(&mut self, quals: Vec<Term>) -> (r: Result<(), MiningError>)
        requires
            old(self).wf(),
            fit_before_constant(old(self)@, fresh_views(quals@)),
            spec_count(old(self)@.arities) + quals@.len() <= usize::MAX,
        ensures
            final(self).wf(),
            r is Ok <==> all_non_constant(fresh_views(quals@)),
            r is Ok ==> final(self)@ == view_insert_all(old(self)@, fresh_views(quals@)),
            r matches Err(e) ==> e == MiningError::ConstantQualifier && exists|k: int|
                first_constant_at(fresh_views(quals@), k) && final(self)@ == view_insert_all(
                    old(self)@,
                    fresh_views(quals@).take(k),
                ),
    {
        let mut values: Vec<QualValues> = Vec::new();
        let mut i: usize = 0;
        while i < quals.len()
            invariant
                i <= quals.len(),
                values@.len() == i,
                forall|j: int| 0 <= j < i ==> (#[trigger] values@[j])@ == spec_fresh(quals@[j]),
            decreases quals.len() - i,
        {
            values.push(QualValues::mk(quals[i].clone()));
            i = i + 1;
        }
        assert(values_views(values@) =~= fresh_views(quals@));
        self.add_qual_values(values)
    }


    /// Whether a qualifier is blacklisted.
    pub fn is_blacklisted(&self, qual: &Term) -> (r: bool)
        ensures
            r == self@.blacklist.contains(*qual),
    {
        let mut i: usize = 0;
        while i < self.blacklist.len()
            invariant
                i <= self.blacklist.len(),
                forall|j: int| 0 <= j < i ==> self.blacklist@[j] != *qual,
            decreases self.blacklist.len() - i,
        {
            if self.blacklist[i].equals(qual) {
                assert(self.blacklist@.to_set().contains(*qual));
                return true;
            }
            i = i + 1;
        }
        assert(!self.blacklist@.contains(*qual));
        false
    }

    /// The values of the qualifier at some position.
    pub fn get(&self, slot: usize, idx: usize) -> (r: &QualValues)
        requires
            self.wf(),
            slot < self@.arities.len(),
            idx < self@.arities[slot as int].len(),
        ensures
            r@ == self@.arities[slot as int][idx as int].values,
    {
        &self.arity_map[slot][idx]
    }

    /// Checks whether the qualifier at some position evaluates to false on a
    /// sample, caching its value (see `QualValuesExt::eval`).
    pub fn eval_qual(&mut self, slot: usize, idx: usize, s: &HSample) -> (r: bool)
        requires
            old(self).wf(),
            slot < old(self)@.arities.len(),
            idx < old(self)@.arities[slot as int].len(),
            eval_defined(old(self)@.arities[slot as int][idx as int].values, s.uid, s.args@),
        ensures
            final(self).wf(),
            r == spec_eval_result(old(self)@.arities[slot as int][idx as int].values, s.uid, s.args@),
            final(self)@ == (QualifiersView {
                arities: old(self)@.arities.update(
                    slot as int,
                    old(self)@.arities[slot as int].update(
                        idx as int,
                        QualEntry {
                            values: spec_eval_state(
                                old(self)@.arities[slot as int][idx as int].values,
                                s.uid,
                                s.args@,
                            ),
                            decay: old(self)@.arities[slot as int][idx as int].decay,
                        },
                    ),
                ),
                ..old(self)@
            }),
    {
        let ghost old_view = self@;
        assert(old_view.arities[slot as int] == entries(
            self.arity_map@[slot as int]@,
            self.decay_map@[slot as int]@,
        ));
        let r = self.arity_map[slot][idx].eval(s);
        proof {
            let e = old_view.arities[slot as int][idx as int];
            let new_e = self@.arities[slot as int][idx as int];
            assert(new_e.values.qual == e.values.qual);
            assert(self@.arities[slot as int] =~= old_view.arities[slot as int].update(
                idx as int,
                new_e,
            ));
            assert(self@.arities =~= old_view.arities.update(
                slot as int,
                self@.arities[slot as int],
            ));
            lemma_count_update(old_view.arities, slot as int, self@.arities[slot as int]);
            let na = self@.arities;
            assert forall|b: int, i: int|
                0 <= b < na.len() && 0 <= i < na[b].len() implies {
                    &&& non_constant(#[trigger] na[b][i].values.qual)
                    &&& qual_slot(na[b][i].values.qual) == b
                } by {
                assert(na[b][i].values.qual == old_view.arities[b][i].values.qual);
            }
            assert forall|b: int| 0 <= b < na.len() implies slot_unique(#[trigger] na[b]) by {
                assert(slot_unique(old_view.arities[b]));
                assert forall|i: int, j: int|
                    0 <= i < na[b].len() && 0 <= j < na[b].len() && i != j implies na[b][i].values.qual
                    != na[b][j].values.qual by {
                    assert(na[b][i].values.qual == old_view.arities[b][i].values.qual);
                    assert(na[b][j].values.qual == old_view.arities[b][j].values.qual);
                }
            }
        }
        r
    }


    /// Updates qualifiers' decay given the qualifiers **chosen** at this
    /// iteration, and removes qualifiers with a decay strictly above
    /// `threshold`. Returns the number of qualifiers removed.
    pub fn brush_quals(&mut self, chosen_quals: Vec<Term>, threshold: usize) -> (r: usize)
        requires
            old(self).wf(),
            decays_can_grow(old(self)@.arities, chosen_quals@.to_set()),
        ensures
            final(self).wf(),
            final(self)@ == (QualifiersView {
                arities: brush_arities(old(self)@.arities, chosen_quals@.to_set(), threshold),
                ..old(self)@
            }),
            r + spec_count(final(self)@.arities) == spec_count(old(self)@.arities),
    {
        let ghost v0 = self@;
        let ghost cs = chosen_quals@.to_set();
        let mut brushed: usize = 0;
        let mut a: usize = 0;
        assert(v0.arities.len() == self.arity_map@.len());
        while a < self.arity_map.len()
            invariant
                v0 == old(self)@,
                cs == chosen_quals@.to_set(),
                decays_can_grow(v0.arities, cs),
                view_wf(v0),
                self.arity_map@.len() == self.decay_map@.len(),
                forall|b: int|
                    0 <= b < self.arity_map@.len() ==> (#[trigger] self.arity_map@[b]).len()
                        == self.decay_map@[b].len(),
                self@.arities.len() == v0.arities.len(),
                a <= self@.arities.len(),
                forall|b: int|
                    0 <= b < v0.arities.len() ==> #[trigger] self@.arities[b] == if b < a {
                        brush_slot(v0.arities[b], cs, threshold)
                    } else {
                        v0.arities[b]
                    },
                self@.pred_to_arity == v0.pred_to_arity,
                self@.blacklist == v0.blacklist,
                brushed + spec_count(self@.arities) == spec_count(v0.arities),
            decreases self@.arities.len() - a,
        {
            let ghost before = self@;
            assert(before.arities[a as int] == v0.arities[a as int]);
            assert(v0.arities[a as int] == entries(
                self.arity_map@[a as int]@,
                self.decay_map@[a as int]@,
            ));
            assert forall|i: int|
                0 <= i < self.arity_map@[a as int]@.len() && !cs.contains(
                    #[trigger] self.arity_map@[a as int]@[i]@.qual,
                ) implies self.decay_map@[a as int]@[i] < usize::MAX by {
                assert(v0.arities[a as int][i].values.qual == self.arity_map@[a as int]@[i]@.qual);
            }
            let removed = brush_slot_exec(
                &mut self.arity_map[a],
                &mut self.decay_map[a],
                &chosen_quals,
                threshold,
            );
            proof {
                assert(self@.arities =~= before.arities.update(
                    a as int,
                    brush_slot(v0.arities[a as int], cs, threshold),
                ));
                lemma_count_update(before.arities, a as int, self@.arities[a as int]);
            }
            brushed = brushed + removed;
            a = a + 1;
        }
        proof {
            assert(self@.arities =~= brush_arities(v0.arities, cs, threshold));
            law_brush_keeps_wf(v0, cs, threshold);
        }
        brushed
    }

    /// Qualifiers for a predicate: an iterator over the qualifiers of arity
    /// at most the predicate's that are not blacklisted.
    pub fn of(&self, pred: usize) -> (r: QualIter)
        requires
            pred < self@.pred_to_arity.len(),
        ensures
            r.spec_pred_arity() == self@.pred_to_arity[pred as int],
            r.spec_arity() == 0,
            r.spec_idx() == 0,
    {
        QualIter::mk(self.pred_to_arity[pred])
    }

    /// Blacklists a qualifier.
    pub fn blacklist(&mut self, qual: &Term)
        requires
            old(self).wf(),
        ensures
            final(self).wf(),
            final(self)@ == (QualifiersView { blacklist: old(self)@.blacklist.insert(*qual), ..old(self)@ }),
    {
        let mut i: usize = 0;
        while i < self.blacklist.len()
            invariant
                i <= self.blacklist.len(),
                *self == *old(self),
                self.wf(),
                forall|j: int| 0 <= j < i ==> self.blacklist@[j] != *qual,
            decreases self.blacklist.len() - i,
        {
            if self.blacklist[i].equals(qual) {
                assert(self@.blacklist.insert(*qual) =~= self@.blacklist);
                return;
            }
            i = i + 1;
        }
        let ghost before = self.blacklist@;
        self.blacklist.push(qual.clone());
        assert(self.blacklist@ == before.push(*qual));
        assert forall|t: Term| #[trigger] self.blacklist@.to_set().contains(t) == before.to_set().insert(
            *qual,
        ).contains(t) by {
            if self.blacklist@.contains(t) && t != *qual {
                let k = choose|k: int| 0 <= k < self.blacklist@.len() && self.blacklist@[k] == t;
                assert(before[k] == t);
            }
            if t == *qual {
                assert(self.blacklist@[before.len() as int] == t);
            }
            if before.contains(t) {
                let k = choose|k: int| 0 <= k < before.len() && before[k] == t;
                assert(self.blacklist@[k] == t);
            }
        }
        assert(self.blacklist@.to_set() =~= before.to_set().insert(*qual));
        assert(self@.arities =~= old(self)@.arities);
    }

    /// Clears the blacklist.
    pub fn clear_blacklist(&mut self)
        requires
            old(self).wf(),
        ensures
            final(self).wf(),
            final(self)@ == (QualifiersView { blacklist: Set::empty(), ..old(self)@ }),
    {
        self.blacklist.clear();
        assert(self@.blacklist =~= Set::<Term>::empty());
        assert(self@.arities =~= old(self)@.arities);
    }
}


/// Lexicographic order on positions (slot, index).
pub open spec fn pos_le(a1: int, i1: int, a2: int, i2: int) -> bool {
    a1 < a2 || (a1 == a2 && i1 <= i2)
}

/// Strict lexicographic order on positions (slot, index).
pub open spec fn pos_lt(a1: int, i1: int, a2: int, i2: int) -> bool {
    a1 < a2 || (a1 == a2 && i1 < i2)
}

/// Whether the qualifier at a position is one of those of a predicate of
/// arity `pred_arity`: its arity is at most the predicate's (its slot is
/// below it) and it is not blacklisted.
pub open spec fn yieldable(v: QualifiersView, pred_arity: int, a: int, i: int) -> bool {
    &&& 0 <= a < pred_arity
    &&& a < v.arities.len()
    &&& 0 <= i < v.arities[a].len()
    &&& !v.blacklist.contains(v.arities[a][i].values.qual)
}

/// One step of a `QualIter` on some qualifiers, from the cursor `(a0, i0)`
/// to the cursor `(a1, i1)`, answering `r`: either the first yieldable
/// position at or after the cursor, the cursor then moving just past it, or
/// nothing when there is no such position, the cursor then moving past the
/// predicate's arity.
pub open spec fn iter_step(
    v: QualifiersView,
    pred_arity: int,
    a0: int,
    i0: int,
    r: Option<(usize, usize)>,
    a1: int,
    i1: int,
) -> bool {
    match r {
        Some((a, i)) => {
            &&& yieldable(v, pred_arity, a as int, i as int)
            &&& pos_le(a0, i0, a as int, i as int)
            &&& forall|a2: int, i2: int|
                yieldable(v, pred_arity, a2, i2) && pos_le(a0, i0, a2, i2) ==> pos_le(a as int, i as int, a2, i2)
            &&& a1 == a
            &&& i1 == i + 1
        },
        None => {
            &&& forall|a2: int, i2: int| yieldable(v, pred_arity, a2, i2) ==> !pos_le(a0, i0, a2, i2)
            &&& a1 >= pred_arity
        },
    }
}

/// Iterator over the qualifiers of a predicate.
///
/// It yields the positions (slot, index) of the qualifiers of a `Qualifiers`,
/// by increasing slot then index, skipping blacklisted ones.
pub struct QualIter {
    /// Arity of the predicate the qualifiers are for.
    pred_arity: usize,
    /// Arity of the next qualifier.
    curr_arity: usize,
    /// Index of the next qualifier in its arity.
    curr_idx: usize,
}

impl QualIter {
    /// Arity of the predicate.
    pub closed spec fn spec_pred_arity(&self) -> usize {
        self.pred_arity
    }

    /// Slot of the next position to look at.
    pub closed spec fn spec_arity(&self) -> usize {
        self.curr_arity
    }

    /// Index of the next position to look at, in its slot.
    pub closed spec fn spec_idx(&self) -> usize {
        self.curr_idx
    }

    /// Constructor.
    pub fn mk(pred_arity: usize) -> (r: Self)
        ensures
            r.spec_pred_arity() == pred_arity,
            r.spec_arity() == 0,
            r.spec_idx() == 0,
    {
        QualIter { pred_arity, curr_arity: 0, curr_idx: 0 }
    }

    /// Next qualifier: the first yieldable position at or after the current
    /// one, if any. Once it answers nothing, the cursor stands past the
    /// predicate's arity, so that it keeps answering nothing.
    pub fn next(&mut self, quals: &Qualifiers) -> (r: Option<(usize, usize)>)
        requires
            quals.wf(),
        ensures
            final(self).spec_pred_arity() == old(self).spec_pred_arity(),
            iter_step(
                quals@,
                old(self).spec_pred_arity() as int,
                old(self).spec_arity() as int,
                old(self).spec_idx() as int,
                r,
                final(self).spec_arity() as int,
                final(self).spec_idx() as int,
            ),
            old(self).spec_arity() >= old(self).spec_pred_arity() ==> r is None && *final(self) == *old(self),
    {
        let ghost v = quals@;
        let ghost pa = self.pred_arity as int;
        let ghost a0 = self.curr_arity as int;
        let ghost i0 = self.curr_idx as int;
        assert(v.arities.len() == quals.arity_map@.len());
        loop
            invariant
                quals.wf(),
                v == quals@,
                v.arities.len() == quals.arity_map@.len(),
                self.pred_arity == pa,
                old(self).pred_arity == pa,
                old(self).curr_arity == a0,
                old(self).curr_idx == i0,
                pos_le(a0, i0, self.curr_arity as int, self.curr_idx as int),
                a0 >= pa ==> *self == *old(self),
                forall|a2: int, i2: int|
                    yieldable(v, pa, a2, i2) && pos_le(a0, i0, a2, i2) ==> pos_le(
                        self.curr_arity as int,
                        self.curr_idx as int,
                        a2,
                        i2,
                    ),
            decreases quals.arity_map@.len() - self.curr_arity, usize::MAX - self.curr_idx,
        {
            if self.curr_arity >= self.pred_arity || self.curr_arity >= quals.arity_map.len() {
                if self.curr_arity < self.pred_arity {
                    self.curr_arity = self.pred_arity;
                }
                return None;
            }
            let a = self.curr_arity;
            assert(v.arities[a as int].len() == quals.arity_map@[a as int]@.len());
            if self.curr_idx < quals.arity_map[a].len() {
                let i = self.curr_idx;
                self.curr_idx = i + 1;
                assert(v.arities[a as int][i as int].values == quals.arity_map@[a as int]@[i as int]@);
                if !quals.is_blacklisted(&quals.arity_map[a][i].qual) {
                    return Some((a, i));
                }
            } else {
                self.curr_arity = a + 1;
                self.curr_idx = 0;
            }
        }
    }
}

/// Evaluation caches its result: after `eval` answers `b` (whether the
/// qualifier is false) on a sample, `lazy_eval` answers `Some(b)` on it, and
/// the qualifier is unchanged.
pub proof fn law_eval_caches(v: QualValuesView, uid: u64, args: Seq<Val>)
    requires
        eval_defined(v, uid, args),
    ensures
        spec_lazy_eval(spec_eval_state(v, uid, args), uid) == Some(spec_eval_result(v, uid, args)),
        spec_eval_state(v, uid, args).qual == v.qual,
{
}

/// Evaluating twice gives the same answer, and the second evaluation
/// changes nothing.
pub proof fn law_eval_idempotent(v: QualValuesView, uid: u64, args: Seq<Val>, args2: Seq<Val>)
    requires
        eval_defined(v, uid, args),
    ensures
        eval_defined(spec_eval_state(v, uid, args), uid, args2),
        spec_eval_result(spec_eval_state(v, uid, args), uid, args2) == spec_eval_result(v, uid, args),
        spec_eval_state(spec_eval_state(v, uid, args), uid, args2) == spec_eval_state(v, uid, args),
{
}

/// After adding a sample as true, `lazy_eval` answers that the qualifier is
/// not false on it; after adding it as false, that it is false, unless it was
/// known true; other samples are answered as before.
pub proof fn law_add_then_lazy(v: QualValuesView, uid: u64, b: bool, other: u64)
    requires
        other != uid,
    ensures
        b ==> spec_lazy_eval(spec_add(v, uid, b), uid) == Some(false),
        !b && !v.trues.contains(uid) ==> spec_lazy_eval(spec_add(v, uid, b), uid) == Some(true),
        spec_lazy_eval(spec_add(v, uid, b), other) == spec_lazy_eval(v, other),
{
}

/// Entries of an arity after brushing, with their origin: each surviving
/// entry comes from an entry of the arity whose new decay is at most the
/// threshold, with that decay, and each entry whose new decay is at most the
/// threshold survives.
proof fn lemma_brush_slot_members(s: Seq<QualEntry>, chosen: Set<Term>, threshold: usize)
    ensures
        forall|i: int|
            0 <= i < brush_slot(s, chosen, threshold).len() ==> exists|j: int|
                0 <= j < s.len() && new_decay(s[j], chosen) <= threshold && (#[trigger] brush_slot(
                    s,
                    chosen,
                    threshold,
                )[i]) == (QualEntry { values: s[j].values, decay: new_decay(s[j], chosen) as usize }),
        forall|j: int|
            0 <= j < s.len() && new_decay(#[trigger] s[j], chosen) <= threshold ==> brush_slot(
                s,
                chosen,
                threshold,
            ).contains(QualEntry { values: s[j].values, decay: new_decay(s[j], chosen) as usize }),
    decreases s.len(),
{
    if s.len() > 0 {
        let p = s.drop_last();
        lemma_brush_slot_members(p, chosen, threshold);
        let r = brush_slot(s, chosen, threshold);
        let pr = brush_slot(p, chosen, threshold);
        assert forall|i: int| 0 <= i < r.len() implies exists|j: int|
            0 <= j < s.len() && new_decay(s[j], chosen) <= threshold && (#[trigger] r[i]) == (QualEntry {
                values: s[j].values,
                decay: new_decay(s[j], chosen) as usize,
            }) by {
            if i < pr.len() {
                let j = choose|j: int|
                    0 <= j < p.len() && new_decay(p[j], chosen) <= threshold && pr[i] == (QualEntry {
                        values: p[j].values,
                        decay: new_decay(p[j], chosen) as usize,
                    });
                assert(s[j] == p[j]);
            } else {
                assert(r[i] == (QualEntry {
                    values: s[s.len() - 1].values,
                    decay: new_decay(s[s.len() - 1], chosen) as usize,
                }));
            }
        }
        assert forall|j: int|
            0 <= j < s.len() && new_decay(#[trigger] s[j], chosen) <= threshold implies r.contains(
            QualEntry { values: s[j].values, decay: new_decay(s[j], chosen) as usize },
        ) by {
            let e = QualEntry { values: s[j].values, decay: new_decay(s[j], chosen) as usize };
            if j < s.len() - 1 {
                assert(p[j] == s[j]);
                assert(pr.contains(e));
                let k = choose|k: int| 0 <= k < pr.len() && pr[k] == e;
                assert(r[k] == e);
            } else {
                assert(r[r.len() - 1] == e);
            }
        }
    }
}

/// Brushing: a qualifier survives exactly when its new decay (zero if it was
/// chosen, one more otherwise) is at most the threshold, and then with that
/// decay; in particular chosen qualifiers always survive, with decay zero,
/// and no surviving qualifier has a decay above the threshold.
pub proof fn law_brush_survivors(v: QualifiersView, chosen: Set<Term>, threshold: usize, a: int, i: int)
    requires
        0 <= a < v.arities.len(),
        0 <= i < v.arities[a].len(),
        decays_can_grow(v.arities, chosen),
    ensures
        new_decay(v.arities[a][i], chosen) <= threshold <==> brush_arities(v.arities, chosen, threshold)[a].contains(
            QualEntry {
                values: v.arities[a][i].values,
                decay: new_decay(v.arities[a][i], chosen) as usize,
            },
        ),
        chosen.contains(v.arities[a][i].values.qual) ==> brush_arities(v.arities, chosen, threshold)[a].contains(
            QualEntry { values: v.arities[a][i].values, decay: 0 },
        ),
        forall|k: int|
            0 <= k < brush_arities(v.arities, chosen, threshold)[a].len() ==> (#[trigger] brush_arities(
                v.arities,
                chosen,
                threshold,
            )[a][k]).decay <= threshold,
{
    let s = v.arities[a];
    let r = brush_arities(v.arities, chosen, threshold)[a];
    assert(r == brush_slot(s, chosen, threshold));
    lemma_brush_slot_members(s, chosen, threshold);
    let e = QualEntry { values: s[i].values, decay: new_decay(s[i], chosen) as usize };
    if r.contains(e) {
        let k = choose|k: int| 0 <= k < r.len() && r[k] == e;
        let j = choose|j: int|
            0 <= j < s.len() && new_decay(s[j], chosen) <= threshold && r[k] == (QualEntry {
                values: s[j].values,
                decay: new_decay(s[j], chosen) as usize,
            });
        assert(s[j].values == s[i].values);
        assert(new_decay(s[j], chosen) == new_decay(s[i], chosen));
    }
    assert forall|k: int| 0 <= k < r.len() implies (#[trigger] r[k]).decay <= threshold by {
        let j = choose|j: int|
            0 <= j < s.len() && new_decay(s[j], chosen) <= threshold && r[k] == (QualEntry {
                values: s[j].values,
                decay: new_decay(s[j], chosen) as usize,
            });
    }
}

/// After inserting qualifier values, they are the entry of their qualifier,
/// in the slot of their arity, with decay zero; other arities are unchanged.
pub proof fn law_insert_present(v: QualifiersView, q: QualValuesView)
    requires
        view_wf(v),
        non_constant(q.qual),
        qual_slot(q.qual) < v.arities.len(),
    ensures
        view_insert(v, q).arities[qual_slot(q.qual)].contains(QualEntry { values: q, decay: 0 }),
        forall|b: int|
            0 <= b < v.arities.len() && b != qual_slot(q.qual) ==> view_insert(v, q).arities[b]
                == v.arities[b],
{
    let a = qual_slot(q.qual);
    let s = v.arities[a];
    let r = slot_insert(s, q);
    assert(view_insert(v, q).arities[a] == r);
    if slot_has(s, q.qual) {
        assert(r[slot_index(s, q.qual)] == QualEntry { values: q, decay: 0 });
    } else {
        assert(r[s.len() as int] == QualEntry { values: q, decay: 0 });
    }
}

/// Iterating over the qualifiers of a predicate never yields a blacklisted
/// qualifier; with an empty blacklist it yields every qualifier of arity at
/// most the predicate's (slot below it).
pub proof fn law_blacklist_and_yield(v: QualifiersView, pred_arity: int, a: int, i: int)
    requires
        0 <= a < v.arities.len(),
        0 <= i < v.arities[a].len(),
    ensures
        v.blacklist.contains(v.arities[a][i].values.qual) ==> !yieldable(v, pred_arity, a, i),
        v.blacklist == Set::<Term>::empty() && a < pred_arity ==> yieldable(v, pred_arity, a, i),
{
}


/// Slot of a position answered by a `QualIter`.
pub open spec fn ans_slot(r: Option<(usize, usize)>) -> int {
    match r {
        Some((a, _)) => a as int,
        None => -1,
    }
}

/// Index of a position answered by a `QualIter`, in its slot.
pub open spec fn ans_idx(r: Option<(usize, usize)>) -> int {
    match r {
        Some((_, i)) => i as int,
        None => -1,
    }
}

/// Whether a run of a `QualIter` is a run of `iter_step`s: `cur[k]` is the
/// cursor before the `k`-th call, which answered `rs[k]`.
pub open spec fn iter_run(
    v: QualifiersView,
    pred_arity: int,
    cur: Seq<(int, int)>,
    rs: Seq<Option<(usize, usize)>>,
) -> bool {
    &&& cur.len() == rs.len() + 1
    &&& forall|k: int|
        0 <= k < rs.len() ==> iter_step(
            v,
            pred_arity,
            cur[k].0,
            cur[k].1,
            #[trigger] rs[k],
            cur[k + 1].0,
            cur[k + 1].1,
        )
}

/// The first `m` answers of a run from the start: positions, yieldable, in
/// strictly increasing order and before the cursor `cur[m]`, and among them
/// every yieldable position before that cursor.
proof fn lemma_iter_prefix(
    v: QualifiersView,
    pred_arity: int,
    cur: Seq<(int, int)>,
    rs: Seq<Option<(usize, usize)>>,
    m: int,
)
    requires
        iter_run(v, pred_arity, cur, rs),
        cur[0] == (0int, 0int),
        0 <= m < rs.len(),
        forall|k: int| 0 <= k < m ==> (#[trigger] rs[k]) is Some,
    ensures
        forall|k: int|
            0 <= k < m ==> yieldable(v, pred_arity, ans_slot(#[trigger] rs[k]), ans_idx(rs[k]))
                && pos_lt(ans_slot(rs[k]), ans_idx(rs[k]), cur[m].0, cur[m].1),
        forall|j: int, k: int|
            0 <= j < k < m ==> pos_lt(
                ans_slot(#[trigger] rs[j]),
                ans_idx(rs[j]),
                ans_slot(#[trigger] rs[k]),
                ans_idx(rs[k]),
            ),
        forall|a: int, i: int|
            yieldable(v, pred_arity, a, i) && pos_lt(a, i, cur[m].0, cur[m].1) ==> exists|k: int|
                0 <= k < m && (#[trigger] rs[k]) == Some((a as usize, i as usize)),
    decreases m,
{
    if m > 0 {
        let p = m - 1;
        lemma_iter_prefix(v, pred_arity, cur, rs, p);
        assert(iter_step(v, pred_arity, cur[p].0, cur[p].1, rs[p], cur[p + 1].0, cur[p + 1].1));
        let a = ans_slot(rs[p]);
        let i = ans_idx(rs[p]);
        assert forall|a2: int, i2: int|
            yieldable(v, pred_arity, a2, i2) && pos_lt(a2, i2, cur[m].0, cur[m].1) implies exists|k: int|
                0 <= k < m && (#[trigger] rs[k]) == Some((a2 as usize, i2 as usize)) by {
            if pos_lt(a2, i2, cur[p].0, cur[p].1) {
                let k = choose|k: int| 0 <= k < p && (#[trigger] rs[k]) == Some((a2 as usize, i2 as usize));
                assert(0 <= k < m && rs[k] == Some((a2 as usize, i2 as usize)));
            } else {
                assert(pos_le(a, i, a2, i2));
                assert(a2 == a && i2 == i);
                assert(rs[p] == Some((a2 as usize, i2 as usize)));
            }
        }
    }
}

/// A full run of a `QualIter` from its start, up to its first `None`,
/// yields every yieldable position exactly once, in strictly increasing
/// order (slot, then index), and nothing else.
pub proof fn law_iteration(
    v: QualifiersView,
    pred_arity: int,
    cur: Seq<(int, int)>,
    rs: Seq<Option<(usize, usize)>>,
)
    requires
        iter_run(v, pred_arity, cur, rs),
        cur[0] == (0int, 0int),
        rs.len() >= 1,
        rs.last() is None,
        forall|k: int| 0 <= k < rs.len() - 1 ==> (#[trigger] rs[k]) is Some,
    ensures
        forall|k: int|
            0 <= k < rs.len() - 1 ==> yieldable(
                v,
                pred_arity,
                ans_slot(#[trigger] rs[k]),
                ans_idx(rs[k]),
            ),
        forall|j: int, k: int|
            0 <= j < k < rs.len() - 1 ==> pos_lt(
                ans_slot(#[trigger] rs[j]),
                ans_idx(rs[j]),
                ans_slot(#[trigger] rs[k]),
                ans_idx(rs[k]),
            ),
        forall|a: int, i: int|
            yieldable(v, pred_arity, a, i) ==> exists|k: int|
                0 <= k < rs.len() - 1 && (#[trigger] rs[k]) == Some((a as usize, i as usize)),
{
    let m = rs.len() - 1;
    lemma_iter_prefix(v, pred_arity, cur, rs, m);
    assert(iter_step(v, pred_arity, cur[m].0, cur[m].1, rs[m], cur[m + 1].0, cur[m + 1].1));
    assert forall|a: int, i: int| yieldable(v, pred_arity, a, i) implies exists|k: int|
        0 <= k < rs.len() - 1 && (#[trigger] rs[k]) == Some((a as usize, i as usize)) by {
        assert(!pos_le(cur[m].0, cur[m].1, a, i));
        assert(pos_lt(a, i, cur[m].0, cur[m].1));
    }
}

/// A yieldable qualifier of a well-formed `Qualifiers` only mentions
/// variables of the predicate: its highest variable is below the
/// predicate's arity.
pub proof fn law_yield_uses_pred_vars(v: QualifiersView, pred_arity: int, a: int, i: int)
    requires
        view_wf(v),
        yieldable(v, pred_arity, a, i),
    ensures
        spec_highest_var(v.arities[a][i].values.qual) == Some(a as usize),
        a < pred_arity,
{
}

/// The count of slots each at most as long as those of other slots is at
/// most their count.
proof fn lemma_count_le(s1: Seq<Seq<QualEntry>>, s2: Seq<Seq<QualEntry>>)
    requires
        s1.len() == s2.len(),
        forall|a: int| 0 <= a < s1.len() ==> (#[trigger] s1[a]).len() <= s2[a].len(),
    ensures
        spec_count(s1) <= spec_count(s2),
    decreases s1.len(),
{
    if s1.len() > 0 {
        let p1 = s1.drop_last();
        let p2 = s2.drop_last();
        assert forall|a: int| 0 <= a < p1.len() implies (#[trigger] p1[a]).len() <= p2[a].len() by {
            assert(p1[a] == s1[a]);
            assert(p2[a] == s2[a]);
        }
        lemma_count_le(p1, p2);
        assert(s1.last().len() <= s2.last().len());
    }
}

/// Brushing with a larger threshold keeps at least as many entries.
proof fn lemma_brush_slot_len_mono(s: Seq<QualEntry>, chosen: Set<Term>, th1: usize, th2: usize)
    requires
        th1 <= th2,
    ensures
        brush_slot(s, chosen, th1).len() <= brush_slot(s, chosen, th2).len(),
    decreases s.len(),
{
    if s.len() > 0 {
        lemma_brush_slot_len_mono(s.drop_last(), chosen, th1, th2);
    }
}

/// Brushing keeps a `Qualifiers` well-formed, without adding qualifiers, and
/// leaves its predicate arities and blacklist as they were.
pub proof fn law_brush_keeps_wf(v: QualifiersView, chosen: Set<Term>, threshold: usize)
    requires
        view_wf(v),
    ensures
        view_wf(QualifiersView { arities: brush_arities(v.arities, chosen, threshold), ..v }),
        spec_count(brush_arities(v.arities, chosen, threshold)) <= spec_count(v.arities),
        brush_arities(v.arities, chosen, threshold).len() == v.arities.len(),
{
    let na = brush_arities(v.arities, chosen, threshold);
    assert forall|b: int, i: int|
        0 <= b < na.len() && 0 <= i < na[b].len() implies {
            &&& non_constant(#[trigger] na[b][i].values.qual)
            &&& qual_slot(na[b][i].values.qual) == b
        } by {
        assert(slot_unique(v.arities[b]));
        lemma_brush_slot(v.arities[b], chosen, threshold);
        let j = choose|j: int| 0 <= j < v.arities[b].len() && v.arities[b][j].values == na[b][i].values;
        assert(non_constant(v.arities[b][j].values.qual));
    }
    assert forall|b: int| 0 <= b < na.len() implies slot_unique(#[trigger] na[b]) by {
        assert(slot_unique(v.arities[b]));
        lemma_brush_slot(v.arities[b], chosen, threshold);
    }
    assert forall|b: int| 0 <= b < na.len() implies (#[trigger] na[b]).len() <= v.arities[b].len() by {
        assert(slot_unique(v.arities[b]));
        lemma_brush_slot(v.arities[b], chosen, threshold);
    }
    lemma_count_le(na, v.arities);
}

/// Brushing is monotone in the threshold: with a larger threshold, every
/// entry kept with the smaller one is kept too, and at least as many
/// qualifiers remain.
pub proof fn law_brush_monotone(arities: Seq<Seq<QualEntry>>, chosen: Set<Term>, th1: usize, th2: usize)
    requires
        th1 <= th2,
    ensures
        spec_count(brush_arities(arities, chosen, th1)) <= spec_count(brush_arities(arities, chosen, th2)),
        forall|a: int, e: QualEntry|
            0 <= a < arities.len() && #[trigger] brush_arities(arities, chosen, th1)[a].contains(e)
                ==> brush_arities(arities, chosen, th2)[a].contains(e),
{
    let b1 = brush_arities(arities, chosen, th1);
    let b2 = brush_arities(arities, chosen, th2);
    assert forall|a: int| 0 <= a < b1.len() implies (#[trigger] b1[a]).len() <= b2[a].len() by {
        lemma_brush_slot_len_mono(arities[a], chosen, th1, th2);
    }
    lemma_count_le(b1, b2);
    assert forall|a: int, e: QualEntry|
        0 <= a < arities.len() && #[trigger] b1[a].contains(e) implies b2[a].contains(e) by {
        let s = arities[a];
        lemma_brush_slot_members(s, chosen, th1);
        lemma_brush_slot_members(s, chosen, th2);
        let k = choose|k: int| 0 <= k < b1[a].len() && b1[a][k] == e;
        let j = choose|j: int|
            0 <= j < s.len() && new_decay(s[j], chosen) <= th1 && b1[a][k] == (QualEntry {
                values: s[j].values,
                decay: new_decay(s[j], chosen) as usize,
            });
        assert(new_decay(s[j], chosen) <= th2);
    }
}

/// Adding qualifiers as terms is adding them as fresh qualifier values: the
/// views that `add_quals` inserts are those that `add_qual_values` inserts
/// when given fresh values of the same qualifiers, so both calls have the
/// same result and the same effect.
pub proof fn law_add_quals_as_values(ts: Seq<Term>, vs: Seq<QualValues>, v: QualifiersView)
    requires
        vs.len() == ts.len(),
        forall|i: int| 0 <= i < vs.len() ==> (#[trigger] vs[i])@ == spec_fresh(ts[i]),
    ensures
        values_views(vs) == fresh_views(ts),
        all_non_constant(values_views(vs)) == all_non_constant(fresh_views(ts)),
        fit_before_constant(v, values_views(vs)) == fit_before_constant(v, fresh_views(ts)),
        view_insert_all(v, values_views(vs)) == view_insert_all(v, fresh_views(ts)),
        forall|k: int| first_constant_at(values_views(vs), k) == first_constant_at(fresh_views(ts), k),
{
    assert(values_views(vs) =~= fresh_views(ts));
}


/// Evaluating a comparison qualifier on an uncached sample whose sides are
/// integers `x` and `y`: `eval` answers whether the comparison is false on
/// them, and the sample is cached in the true set exactly when the
/// comparison holds (so `<` on equal integers is false).
pub proof fn law_eval_comparison_qualifier(
    v: QualValuesView,
    uid: u64,
    m: Seq<Val>,
    op: RelOp,
    l: Term,
    r: Term,
    x: i64,
    y: i64,
)
    requires
        spec_lazy_eval(v, uid) is None,
        v.qual == Term::Rel(op, Box::new(l), Box::new(r)),
        spec_eval(l, m) == Some(Val::I(x)),
        spec_eval(r, m) == Some(Val::I(y)),
    ensures
        eval_defined(v, uid, m),
        op == RelOp::Lt ==> spec_eval_result(v, uid, m) == !(x < y),
        op == RelOp::Le ==> spec_eval_result(v, uid, m) == !(x <= y),
        op == RelOp::Gt ==> spec_eval_result(v, uid, m) == !(x > y),
        op == RelOp::Ge ==> spec_eval_result(v, uid, m) == !(x >= y),
        op == RelOp::Eq ==> spec_eval_result(v, uid, m) == !(x == y),
        spec_eval_state(v, uid, m).trues.contains(uid) <==> !spec_eval_result(v, uid, m),
        spec_eval_state(v, uid, m).flses.contains(uid) <==> spec_eval_result(v, uid, m),
{
    law_eval_comparison(op, l, r, m, x, y);
}

} // verus!
