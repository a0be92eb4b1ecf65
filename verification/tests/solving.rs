use solatic::solver::NULL_CLAUSE;
use solatic::{to_lits, Lit, SolveResult, Solver};

fn report(solver: &mut Solver) -> (SolveResult, String) {
    let mut out: Vec<u8> = Vec::new();
    let r = solver.solve_and_write(&mut out);
    (r, String::from_utf8(out).unwrap())
}

#[test]
fn add_clause_answers() {
    let mut solver = Solver::new();
    assert_eq!(solver.add_clause(&to_lits(&[])), None);
    assert_eq!(solver.add_clause(&to_lits(&[1, -1])), Some(NULL_CLAUSE));
    assert_eq!(solver.add_clause(&to_lits(&[2, 2])), Some(NULL_CLAUSE));
    assert_eq!(solver.add_clause(&to_lits(&[1, 3, 1])), Some(0));
    assert_eq!(solver.add_clause(&to_lits(&[-3, 4])), Some(1));
    assert_eq!(solver.values_len(), 5);
    // the unit clause [2, 2] is assigned at once
    assert_eq!(solver.value_of(2), Some(true));
}

#[test]
fn value_of_out_of_range_is_none() {
    let mut solver = Solver::new();
    assert_eq!(solver.value_of(0), None);
    solver.add_clause(&to_lits(&[-4])).unwrap();
    assert_eq!(solver.values_len(), 5);
    assert_eq!(solver.value_of(4), Some(false));
    assert_eq!(solver.value_of(5), None);
    assert_eq!(solver.value_of(usize::MAX), None);
}

#[test]
fn empty_formula_is_sat_with_no_lines() {
    let mut solver = Solver::default();
    assert_eq!(report(&mut solver), (SolveResult::Sat, "SAT\n".to_string()));
}

#[test]
fn sat_report_lists_the_assignment() {
    let mut solver = Solver::new();
    solver.add_clause(&to_lits(&[1, 2])).unwrap();
    // variable 1 is decided false first, which forces variable 2
    assert_eq!(report(&mut solver), (SolveResult::Sat, "SAT\nV1=0\nV2=1\n".to_string()));
}

#[test]
fn unsat_report() {
    let mut solver = Solver::new();
    for c in [[-1, -2], [2, 3], [-3, 1]] {
        solver.add_clause(&to_lits(&c)).unwrap();
    }
    solver.add_clause(&to_lits(&[1, -2, 3])).unwrap();
    solver.add_clause(&to_lits(&[-1, 2, -3])).unwrap();
    assert_eq!(report(&mut solver), (SolveResult::Unsat, "UNSAT\n".to_string()));
}

#[test]
fn write_assignments_before_solving() {
    let mut solver = Solver::new();
    solver.add_clause(&to_lits(&[3])).unwrap();
    solver.add_clause(&to_lits(&[-1, 12])).unwrap();
    let mut out: Vec<u8> = Vec::new();
    solver.write_assignments(&mut out);
    let text = String::from_utf8(out).unwrap();
    let mut expected = String::new();
    for v in 1..13 {
        expected.push_str(&format!("V{}={}\n", v, if v == 3 { 1 } else { 0 }));
    }
    assert_eq!(text, expected);
}

/// Pigeons `0..pigeons` each take one of `holes` holes (variable `1 + p * holes + h`),
/// no two in the same hole.
fn pigeonhole(pigeons: i32, holes: i32) -> Solver {
    let mut solver = Solver::new();
    let var = |p: i32, h: i32| 1 + p * holes + h;
    for p in 0..pigeons {
        let clause: Vec<i32> = (0..holes).map(|h| var(p, h)).collect();
        solver.add_clause(&to_lits(&clause)).unwrap();
    }
    for h in 0..holes {
        for p in 0..pigeons {
            for q in (p + 1)..pigeons {
                solver.add_clause(&to_lits(&[-var(p, h), -var(q, h)])).unwrap();
            }
        }
    }
    solver
}

#[test]
fn pigeonhole_with_too_few_holes_is_unsat() {
    for (pigeons, holes) in [(3, 2), (4, 3), (5, 4)] {
        let mut solver = pigeonhole(pigeons, holes);
        assert_eq!(solver.solve(), SolveResult::Unsat, "{} pigeons, {} holes", pigeons, holes);
    }
}

#[test]
fn pigeonhole_with_enough_holes_is_sat_and_the_model_holds() {
    for (pigeons, holes) in [(1, 1), (3, 3), (4, 5)] {
        let mut solver = pigeonhole(pigeons, holes);
        assert_eq!(solver.solve(), SolveResult::Sat);
        let var = |p: i32, h: i32| (1 + p * holes + h) as usize;
        for p in 0..pigeons {
            assert!((0..holes).any(|h| solver.value_of(var(p, h)) == Some(true)));
        }
        for h in 0..holes {
            let taken = (0..pigeons).filter(|&p| solver.value_of(var(p, h)) == Some(true)).count();
            assert!(taken <= 1);
        }
    }
}

#[test]
fn every_variable_from_one_is_set_after_sat() {
    let mut solver = Solver::new();
    solver.add_clause(&to_lits(&[1, 5])).unwrap();
    solver.add_clause(&to_lits(&[-5, 3])).unwrap();
    assert_eq!(solver.solve(), SolveResult::Sat);
    // every variable from 1 on holds a value; the ones no clause forces are false
    assert_eq!(solver.value_of(1), Some(false));
    assert_eq!(solver.value_of(2), Some(false));
    assert_eq!(solver.value_of(3), Some(true));
    assert_eq!(solver.value_of(4), Some(false));
    assert_eq!(solver.value_of(5), Some(true));
}

/// Clauses of three distinct variables from `0..nvars`, each literal a variable
/// and whether it is negative, drawn from a fixed linear congruential sequence
/// started at `seed`.
fn three_sat(seed: u64, nvars: u64, nclauses: usize) -> Vec<Vec<(usize, bool)>> {
    let mut state = seed;
    let mut next = move || {
        state = state.wrapping_mul(6364136223846793005).wrapping_add(1442695040888963407);
        state >> 33
    };
    let mut clauses = Vec::new();
    while clauses.len() < nclauses {
        let mut vars: Vec<usize> = Vec::new();
        while vars.len() < 3 {
            let v = (next() % nvars) as usize;
            if !vars.contains(&v) {
                vars.push(v);
            }
        }
        clauses.push(vars.iter().map(|&v| (v, next() % 2 == 1)).collect());
    }
    clauses
}

#[test]
fn sat_answer_satisfies_every_clause() {
    let mut sat_seen = 0;
    let mut unsat_seen = 0;
    for seed in 0..60u64 {
        let clauses = three_sat(seed, 7, 30);
        let mut solver = Solver::new();
        for c in &clauses {
            let lits: Vec<Lit> = c.iter().map(|&(v, neg)| Lit::new(v, neg)).collect();
            solver.add_clause(&lits).unwrap();
        }
        match solver.solve() {
            SolveResult::Sat => {
                sat_seen += 1;
                // an unassigned variable (only variable 0 can be one) reads false
                for c in &clauses {
                    let holds = c.iter().any(|&(v, neg)| solver.value_of(v) == Some(!neg));
                    assert!(holds, "seed {}: clause {:?} does not hold", seed, c);
                }
            }
            SolveResult::Unsat => unsat_seen += 1,
            SolveResult::Unknown => panic!("seed {}: no answer", seed),
        }
    }
    assert!(sat_seen > 0 && unsat_seen > 0, "{} sat, {} unsat", sat_seen, unsat_seen);
}

#[test]
fn sat_answer_with_unit_clauses_satisfies_every_clause() {
    // Variable 0 is set by a unit clause, variable 3 too; a clause whose first
    // two literals both contradict those units is left out.
    let units = [(0usize, false), (3usize, true)];
    let falsified = |v: usize, neg: bool| units.iter().any(|&(u, uneg)| u == v && uneg != neg);
    let mut sat_seen = 0;
    for seed in 100..160u64 {
        let clauses: Vec<Vec<(usize, bool)>> = three_sat(seed, 7, 24)
            .into_iter()
            .filter(|c| !(falsified(c[0].0, c[0].1) && falsified(c[1].0, c[1].1)))
            .collect();
        let mut solver = Solver::new();
        for &(v, neg) in &units {
            solver.add_clause(&[Lit::new(v, neg)]).unwrap();
        }
        for c in &clauses {
            let lits: Vec<Lit> = c.iter().map(|&(v, neg)| Lit::new(v, neg)).collect();
            solver.add_clause(&lits).unwrap();
        }
        if solver.solve() == SolveResult::Sat {
            sat_seen += 1;
            for &(v, neg) in &units {
                assert_eq!(solver.value_of(v), Some(!neg));
            }
            for c in &clauses {
                let holds = c.iter().any(|&(v, neg)| solver.value_of(v) == Some(!neg));
                assert!(holds, "seed {}: clause {:?} does not hold", seed, c);
            }
        }
    }
    assert!(sat_seen > 0);
}

#[test]
fn clause_falsified_by_unit_clauses_answers_unsat() {
    // The unit clauses make both literals of the stored clause false before the
    // search: starting its watches finds the conflict.
    let mut solver = Solver::new();
    solver.add_clause(&to_lits(&[1])).unwrap();
    solver.add_clause(&to_lits(&[-2])).unwrap();
    solver.add_clause(&to_lits(&[-1, 2])).unwrap();
    assert_eq!(solver.solve(), SolveResult::Unsat);
}

#[test]
fn clashing_unit_clauses_answer_unsat() {
    let mut solver = Solver::new();
    assert_eq!(solver.add_clause(&to_lits(&[1])), Some(NULL_CLAUSE));
    assert_eq!(solver.add_clause(&to_lits(&[-1])), Some(NULL_CLAUSE));
    assert_eq!(solver.solve(), SolveResult::Unsat);
}

#[test]
fn units_against_a_binary_clause_answer_unsat() {
    let mut solver = Solver::new();
    solver.add_clause(&to_lits(&[-1])).unwrap();
    solver.add_clause(&to_lits(&[-2])).unwrap();
    solver.add_clause(&to_lits(&[1, 2])).unwrap();
    assert_eq!(solver.solve(), SolveResult::Unsat);
}

#[test]
fn units_leave_one_literal_of_a_clause() {
    // Starting the watches of the clause propagates its only free literal.
    let mut solver = Solver::new();
    solver.add_clause(&to_lits(&[-1])).unwrap();
    solver.add_clause(&to_lits(&[-2])).unwrap();
    solver.add_clause(&to_lits(&[1, 2, 3])).unwrap();
    assert_eq!(solver.solve(), SolveResult::Sat);
    assert_eq!(solver.value_of(1), Some(false));
    assert_eq!(solver.value_of(2), Some(false));
    assert_eq!(solver.value_of(3), Some(true));
}

#[test]
fn solving_again_gives_the_same_answer() {
    let mut solver = Solver::new();
    for c in [[-1, -2].as_slice(), &[2, 3], &[-3, 1], &[1, -2, 3]] {
        solver.add_clause(&to_lits(c)).unwrap();
    }
    assert_eq!(solver.solve(), SolveResult::Sat);
    assert_eq!(solver.solve(), SolveResult::Sat);
    for c in [[-1, -2].as_slice(), &[2, 3], &[-3, 1], &[1, -2, 3]] {
        let holds = to_lits(c).iter().any(|l| solver.value_of(l.var()) == Some(l.is_pos()));
        assert!(holds);
    }
}

#[test]
fn unit_clause_added_after_solving_is_kept() {
    let mut solver = Solver::new();
    solver.add_clause(&to_lits(&[1, 2])).unwrap();
    assert_eq!(solver.solve(), SolveResult::Sat);
    // The search assigned variable 1 false first; the new clause asks for true.
    assert_eq!(solver.value_of(1), Some(false));
    assert_eq!(solver.add_clause(&to_lits(&[1])), Some(NULL_CLAUSE));
    assert_eq!(solver.value_of(1), Some(true));
    assert_eq!(solver.solve(), SolveResult::Sat);
    assert_eq!(solver.value_of(1), Some(true));
    assert_eq!(solver.add_clause(&to_lits(&[-1])), Some(NULL_CLAUSE));
    assert_eq!(solver.solve(), SolveResult::Unsat);
}

#[test]
fn unit_clause_after_solving_drops_the_old_decisions() {
    // Variable 1 is decided false and variable 2 propagated true; the unit clause
    // -2 then leaves only variable 1 true as a model.
    let mut solver = Solver::new();
    solver.add_clause(&to_lits(&[1, 2])).unwrap();
    assert_eq!(solver.solve(), SolveResult::Sat);
    assert_eq!(solver.value_of(1), Some(false));
    assert_eq!(solver.value_of(2), Some(true));
    solver.add_clause(&to_lits(&[-2])).unwrap();
    assert_eq!(solver.solve(), SolveResult::Sat);
    assert_eq!(solver.value_of(1), Some(true));
    assert_eq!(solver.value_of(2), Some(false));
}

#[test]
fn unit_clause_on_a_new_variable_after_solving_keeps_the_values() {
    // Above decision level 0 a unit clause on an unassigned variable is set at
    // the current level, and the values already there stay.
    let mut solver = Solver::new();
    solver.add_clause(&to_lits(&[1, 2])).unwrap();
    assert_eq!(solver.solve(), SolveResult::Sat);
    assert_eq!(solver.value_of(1), Some(false));
    assert_eq!(solver.value_of(2), Some(true));
    assert_eq!(solver.add_clause(&to_lits(&[5])), Some(NULL_CLAUSE));
    assert_eq!(solver.values_len(), 6);
    assert_eq!(solver.value_of(1), Some(false));
    assert_eq!(solver.value_of(2), Some(true));
    assert_eq!(solver.value_of(5), Some(true));
    assert_eq!(solver.solve(), SolveResult::Sat);
    assert_eq!(solver.value_of(5), Some(true));
    assert_eq!(solver.add_clause(&to_lits(&[-5])), Some(NULL_CLAUSE));
    assert_eq!(solver.solve(), SolveResult::Unsat);
}

#[test]
fn num_clauses_counts_the_stored_clauses() {
    let mut solver = Solver::new();
    assert_eq!(solver.num_clauses(), 0);
    assert_eq!(solver.add_clause(&to_lits(&[1, 2])), Some(0));
    assert_eq!(solver.num_clauses(), 1);
    assert_eq!(solver.add_clause(&to_lits(&[3])), Some(NULL_CLAUSE));
    assert_eq!(solver.add_clause(&to_lits(&[1, -1])), Some(NULL_CLAUSE));
    assert_eq!(solver.num_clauses(), 1);
    assert_eq!(solver.add_clause(&to_lits(&[2, 3, -1])), Some(1));
    assert_eq!(solver.num_clauses(), 2);
}
