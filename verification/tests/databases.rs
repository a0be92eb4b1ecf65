use solatic::solver::{ClauseDb, Lit, VariableDb, Watcher, WatchersDb, NULL_CLAUSE};
use solatic::to_lits;

#[test]
fn test_clause_db() {
    let mut db = ClauseDb::default();
    let cl0 = to_lits(&[1, 2, 3, 4]);
    let cl0_tautology = to_lits(&[1, 2, 3, -2, 5, 7]);
    let cl2 = to_lits(&[-1, -2, -3]);
    let cl3 = to_lits(&[1, 2, 1, 2, 3, -4, 5, -4]);
    let cl3_compact = to_lits(&[1, 2, 3, -4, 5]);
    let cl4 = to_lits(&[]);
    let cl5 = to_lits(&[-5]);
    let mut variables = VariableDb::default();
    variables.ensure_vars(9);
    let clause_id0 = db.push(cl0.as_slice(), &mut variables);
    assert_eq!(clause_id0, 0);
    let clause_id0_tautology = db.push(cl0_tautology.as_slice(), &mut variables);
    assert_eq!(clause_id0_tautology, NULL_CLAUSE);
    let clause_id2 = db.push(cl2.as_slice(), &mut variables);
    assert_eq!(clause_id2, 1);
    let clause_id3 = db.push(cl3.as_slice(), &mut variables);
    assert_eq!(clause_id3, 2);
    let clause_id4 = db.push(cl4.as_slice(), &mut variables);
    assert_eq!(clause_id4, 3);
    let clause_id5 = db.push(cl5.as_slice(), &mut variables);
    assert_eq!(clause_id5, 4);
    assert_eq!(db.literals(db.get(clause_id0)), &cl0);
    assert_eq!(db.literals(db.get(clause_id2)), &cl2);
    assert_eq!(db.literals(db.get(clause_id3)), &cl3_compact);
    assert_eq!(db.literals(db.get(clause_id4)), &cl4);
    assert_eq!(db.literals(db.get(clause_id5)), &cl5);

    let c6 = to_lits(&[5, 6]);
    let clause_id6 = db.push(c6.as_slice(), &mut variables);
    assert_eq!(db.literals(db.get(clause_id6)), &c6);
    assert!(db.literals(db.get(clause_id4)).is_empty());
    assert!(!db.literals(db.get(clause_id0)).is_empty());

    db.literals_mut(db.get(clause_id6))[0] = Lit::new(8, false);
    assert_eq!(db.literals(db.get(clause_id6)), &to_lits(&[8, 6]));
}

#[test]
fn test_watch_db() {
    let mut db = WatchersDb::default();
    assert!(db.watches(Lit::new(1, false)).is_empty());
    assert!(db.watches(-Lit::new(1, false)).is_empty());

    db.add_watch(Lit::new(1, false), Watcher { clause: 0 });
    db.add_watch(-Lit::new(1, false), Watcher { clause: 1 });
    db.add_watch(Lit::new(1, false), Watcher { clause: 2 });

    assert_eq!(*db.watches(Lit::new(1, false)), &[Watcher { clause: 0 }, Watcher { clause: 2 }]);
    assert_eq!(*db.watches(-Lit::new(1, false)), &[Watcher { clause: 1 }]);

    db.add_watch(Lit::new(1, false), Watcher { clause: 3 });
    assert_eq!(
        *db.watches(Lit::new(1, false)),
        &[Watcher { clause: 0 }, Watcher { clause: 2 }, Watcher { clause: 3 }]
    );
}

#[test]
fn falsified_literal_moves_to_the_second_position() {
    let mut variables = VariableDb::default();
    variables.ensure_vars(2);
    let mut db = ClauseDb::default();
    let id = db.push(&to_lits(&[1, 2]), &mut variables);
    assert_eq!(id, 0);
    assert_eq!(db.ensure_falsified_at_pos1(db.get(id), Lit::new(1, false)), Some(()));
    assert_eq!(db.literals(db.get(id)), &to_lits(&[2, 1]));
    assert_eq!(db.ensure_falsified_at_pos1(db.get(id), Lit::new(1, false)), Some(()));
    assert_eq!(db.literals(db.get(id)), &to_lits(&[2, 1]));
}
