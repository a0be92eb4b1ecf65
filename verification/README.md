# solatic

A small CDCL SAT solver whose logic is proved correct with Verus.

The solver stores clauses of two or more literals in a flat pool, watches the
first two literals of each clause, propagates assignments with two watched
literals, learns from each conflict the clause of its first unique
implication point, and jumps back to the level that clause asserts. Clauses of
one literal are assigned at once, at the current decision level; when their
variable already has a value above level 0, the solver first goes back to
level 0 and assigns it there.

What is proved, among other things:

- an `Unsat` answer means that the clauses given have no model;
- a `Sat` answer assigns every variable from 1 on, and the values satisfy every
  clause given, also when the solver is asked again after clauses were added;
- every learned clause is the one that resolving back along the trail gives at
  the first point where one literal of the conflict level is left; it holds in
  every model of the stored clauses (and so of the clauses given), is asserting
  at the level the search goes back to, and its second literal is of that level;
- propagating a clause moves the falsified literal to the second watched
  position and either leaves the clause satisfied, moves the watch, sets the
  first literal with the clause as its reason, or reports a conflict;
- the DIMACS reader builds exactly the solver that adding the clauses of its
  lines in order gives, and reports the first line that it refuses;
- the search ends, and every conflict raises a measure of the trail that is
  bounded by a function of the number of variables (`src/progress.rs`); so one
  search stores at most `search_bound(n)` clauses over `n` variables, and
  `UNKNOWN` needs the clause store to reach its capacity within that bound
  (over eight variables or fewer, the bound is at most 800 million);
- the report is the answer line (`SAT`, `UNSAT`, or `UNKNOWN` when a conflict
  finds the clause store full), followed for `SAT` by one `V<var>=<0|1>` line
  per variable from 1 on.

Layout:

- `src/lit.rs`, `src/assignment.rs`: literals and variable states;
- `src/clause_db.rs`, `src/variables.rs`, `src/watchers.rs`: the clause pool, the
  per-variable tables and the watch lists;
- `src/conflict.rs`, `src/analysis.rs`: conflict analysis and its proofs;
- `src/semantics.rs`: models, clauses and formulas as mathematics;
- `src/solver.rs`: the search and its invariants;
- `src/progress.rs`: the measure that bounds the conflicts of one search;
- `src/dimacs_parser.rs`, `src/text.rs`: reading DIMACS text and writing the report;
- `app/main.rs`: the command line program (file reading and printing);
- `tests/`: tests of the library.
