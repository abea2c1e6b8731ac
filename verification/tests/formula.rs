use hydra::{Assignment, Clause, Formula, Lit, LitError, Var};

fn lit(n: isize) -> Lit {
    Lit::from_dimacs(n).unwrap()
}

fn var(n: usize) -> Var {
    Var::from_dimacs(n).unwrap()
}

fn clause(ns: &[isize]) -> Clause {
    let mut c = Clause::new();
    for &n in ns {
        c.add_literal(lit(n));
    }
    c
}

#[test]
fn assignment_set_get_contains() {
    let mut a = Assignment::new();
    assert!(!a.contains(&var(1)));
    assert_eq!(a.get(&var(1)), None);

    assert!(!a.set(var(1), true));
    assert!(a.contains(&var(1)));
    assert_eq!(a.get(&var(1)), Some(true));

    // last writer wins, and the previous presence is reported
    assert!(a.set(var(1), false));
    assert_eq!(a.get(&var(1)), Some(false));
}

#[test]
fn assignment_set_lit_and_evaluate() {
    let mut a = Assignment::new();
    a.set_lit(&lit(-2));
    assert_eq!(a.get(&var(2)), Some(false));
    assert_eq!(a.evaluate(&lit(-2)), Some(true));
    assert_eq!(a.evaluate(&lit(2)), Some(false));
    assert_eq!(a.evaluate(&lit(3)), None);
}

#[test]
fn assignment_vec_is_sorted_by_index() {
    let mut a = Assignment::new();
    a.set(var(3), true);
    a.set(var(1), false);
    a.set(var(2), true);
    let pairs = a.vec();
    assert_eq!(pairs, vec![(var(1), false), (var(2), true), (var(3), true)]);

    let lits = a.lits();
    assert_eq!(lits, vec![lit(-1), lit(2), lit(3)]);
}

#[test]
fn assignment_hashmap_mirrors_contents() {
    let mut a = Assignment::new();
    a.set(var(1), true);
    a.set(var(2), false);
    let hm = a.hashmap();
    assert_eq!(hm.len(), 2);
    assert_eq!(hm.get(&var(1)), Some(&true));
    assert_eq!(hm.get(&var(2)), Some(&false));
}

#[test]
fn assignment_clone_keeps_contents() {
    let mut a = Assignment::new();
    a.set(var(1), true);
    a.set(var(5), false);
    let b = a.clone();
    assert_eq!(a.vec(), b.vec());
}

#[test]
fn clause_add_remove_contains() {
    let mut c = clause(&[1, -2, 3]);
    assert!(c.contains_literal(&lit(-2)));
    assert!(!c.contains_literal(&lit(2)));
    assert!(!c.is_empty());

    c.remove_literal(lit(-2));
    assert!(!c.contains_literal(&lit(-2)));
    assert_eq!(c.literals(), vec![lit(1), lit(3)]);

    c.remove_variable(var(1));
    assert_eq!(c.literals(), vec![lit(3)]);

    c.remove_variable(var(3));
    assert!(c.is_empty());
}

#[test]
fn clause_evaluate_cases() {
    let c = clause(&[1, -2]);
    let mut a = Assignment::new();
    assert_eq!(c.evaluate(&a), None);

    a.set(var(1), true);
    assert_eq!(c.evaluate(&a), Some(true));

    let mut a = Assignment::new();
    a.set(var(1), false);
    assert_eq!(c.evaluate(&a), None);
    a.set(var(2), true);
    assert_eq!(c.evaluate(&a), Some(false));

    // the empty clause is false
    let empty = Clause::new();
    assert_eq!(empty.evaluate(&Assignment::new()), Some(false));
}

#[test]
fn clause_is_unit() {
    let c = clause(&[1, 2, 3]);
    let mut a = Assignment::new();
    assert_eq!(c.is_unit(&a), None);

    a.set(var(1), false);
    assert_eq!(c.is_unit(&a), None);

    a.set(var(2), false);
    assert_eq!(c.is_unit(&a), Some(lit(3)));

    // a true literal among the others means the clause is not unit
    let mut a = Assignment::new();
    a.set(var(1), true);
    a.set(var(2), false);
    assert_eq!(c.is_unit(&a), None);
}

#[test]
fn clause_from_dimacs_builds_in_order() {
    let c = Clause::from_dimacs(&[1, -2, 3]).unwrap();
    assert_eq!(c.literals(), vec![lit(1), lit(-2), lit(3)]);
    assert!(Clause::from_dimacs(&[]).unwrap().is_empty());
}

#[test]
fn clause_from_dimacs_reports_first_error() {
    assert!(matches!(Clause::from_dimacs(&[1, 0, 0x5000_0000]), Err(LitError::InvalidDimacs)));
    assert!(matches!(Clause::from_dimacs(&[1, 0x5000_0000, 0]), Err(LitError::IndexTooLarge)));
}

#[test]
fn clause_random_is_well_formed() {
    for _ in 0..20 {
        let c = Clause::random(5, 2..9).unwrap();
        let lits = c.literals();
        assert_eq!(lits.len(), 5);
        for (i, l) in lits.iter().enumerate() {
            assert!(2 <= l.index() && l.index() < 9);
            for other in lits.iter().skip(i + 1) {
                assert_ne!(l.var(), other.var());
            }
        }
    }
    // a clause that needs the whole range still gets distinct variables
    let c = Clause::random(4, 0..4).unwrap();
    assert_eq!(c.literals().len(), 4);
}

#[test]
fn solver_ready_spots_repeated_variables() {
    let mut f = Formula::new();
    f.add_clause(clause(&[1, 2]));
    f.add_clause(clause(&[-2, 3]));
    assert!(f.is_solver_ready());

    // a tautological clause mentions a variable twice
    f.add_clause(clause(&[1, -1]));
    assert!(!f.is_solver_ready());

    let mut g = Formula::new();
    g.add_clause(clause(&[2, 2]));
    assert!(!g.is_solver_ready());
}

#[test]
fn formula_add_and_evaluate() {
    let mut f = Formula::new();
    f.add_clause(clause(&[1, 2]));
    f.add_clause(clause(&[-1, 2]));
    assert_eq!(f.clauses().len(), 2);

    let mut a = Assignment::new();
    assert_eq!(f.evaluate(&a), None);
    a.set(var(2), true);
    assert_eq!(f.evaluate(&a), Some(true));

    let mut a = Assignment::new();
    a.set(var(2), false);
    a.set(var(1), false);
    assert_eq!(f.evaluate(&a), Some(false));

    // the empty formula is true
    assert_eq!(Formula::new().evaluate(&Assignment::new()), Some(true));
}
