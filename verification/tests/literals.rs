use solatic::assignment::Assignment;
use solatic::lit::MAX_VAR;
use solatic::{to_lits, Lit};

#[test]
fn lit_new_keeps_variable_and_sign() {
    for &(var, neg) in &[(0usize, false), (1, true), (7, false), (MAX_VAR, true), (MAX_VAR, false)] {
        let l = Lit::new(var, neg);
        assert_eq!(l.var(), var);
        assert_eq!(l.is_pos(), !neg);
    }
}

#[test]
fn lit_negation_is_an_involution() {
    for &(var, neg) in &[(0usize, false), (3, true), (MAX_VAR, true)] {
        let l = Lit::new(var, neg);
        let n = -l;
        assert_eq!(n.var(), var);
        assert_eq!(n.is_pos(), neg);
        assert_ne!(n, l);
        assert_eq!(-n, l);
        assert_eq!(l.negate(), n);
    }
}

#[test]
fn lit_codes_put_the_sign_in_the_top_bit() {
    assert_eq!(Lit::new(5, false).0, 5);
    assert_eq!(Lit::new(5, true).0, 0x8000_0005);
    assert_eq!((-Lit::new(0, false)).0, 0x8000_0000);
}

#[test]
fn to_lits_maps_signed_numbers() {
    let lits = to_lits(&[3, -4, 1, -2147483647]);
    assert_eq!(lits, vec![Lit::new(3, false), Lit::new(4, true), Lit::new(1, false), Lit::new(2147483647, true)]);
    assert!(to_lits(&[]).is_empty());
}

#[test]
fn assignment_negation() {
    assert_eq!(Assignment::positive().negated(), Assignment::negative());
    assert_eq!(Assignment::negative().negated(), Assignment::positive());
    assert_eq!(Assignment::unassigned().negated(), Assignment::unassigned());
    assert_eq!(Assignment::empty().negated(), Assignment::empty());
    for a in [Assignment::positive(), Assignment::negative(), Assignment::unassigned(), Assignment::empty()] {
        assert_eq!(a.negated().negated(), a);
    }
}

#[test]
fn assignment_flags() {
    assert!(Assignment::unassigned().is_unassigned());
    assert!(!Assignment::positive().is_unassigned());
    assert!(Assignment::empty().is_empty());
    assert!(Assignment::unassigned().contains(Assignment::positive()));
    assert!(Assignment::unassigned().contains(Assignment::negative()));
    assert!(!Assignment::negative().contains(Assignment::positive()));
    assert_eq!(Assignment::from_bool(true), Assignment::positive());
    assert_eq!(Assignment::from_bool(false), Assignment::negative());
    assert_eq!(Assignment::from(true), Assignment::positive());
    assert_eq!(Assignment::from(Lit::new(2, true)), Assignment::negative());
    assert_eq!(Assignment::from_lit(Lit::new(2, false)), Assignment::positive());
}
