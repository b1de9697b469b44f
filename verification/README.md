# hoice_core

The verified core of an ICE-based Horn clause learner: qualifier mining and
the decisions of the teacher, the process that checks the learners'
candidates with an SMT solver.

- `src/term.rs`: terms over predicate or clause variables, values, types, and
  evaluation of terms on samples.
- `src/instance.rs`: the shape of a Horn clause instance as read by mining and
  teaching (predicates, clauses, constants, qualifiers, forced definitions).
- `src/mining.rs`: `QualValues` (a qualifier with the samples it is known to be
  true or false on), `Qualifiers` (one slot per variable of the largest
  predicate, slot `k` holding the qualifiers of arity `k + 1`, with decay and
  a blacklist) and `QualIter` (the qualifiers of a predicate).
- `src/teacher.rs`: initial candidates, the plan of a counterexample search
  (what to define, which clauses to check), counterexamples from models,
  handling of learner messages, the teacher's own state, and the teaching loop
  as a step function from state and event to next state and action.
- `src/smt2.rs`: SMT-LIB text: variable names, terms, clause assertions, and
  parsing of identifiers and values in models.
- `app/lib.rs`: the solver process (through `rsmt2`), learner threads and
  channels, driving the step function.
