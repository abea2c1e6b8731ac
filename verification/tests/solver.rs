use hydra::{solve, Assignment, Clause, Context, Formula, Lit, PropagateOutcome};

fn clause(ns: &[isize]) -> Clause {
    let mut c = Clause::new();
    for &n in ns {
        c.add_literal(Lit::from_dimacs(n).unwrap());
    }
    c
}

fn formula(css: &[&[isize]]) -> Formula {
    let mut f = Formula::new();
    for cs in css {
        f.add_clause(clause(cs));
    }
    f
}

/// Every clause of the formula must hold under the returned assignment.
fn check_model(f: &Formula, a: &Assignment) {
    for c in f.clauses() {
        assert_eq!(c.evaluate(a), Some(true), "clause not satisfied: {:?}", c);
    }
    assert_eq!(f.evaluate(a), Some(true));
}

#[test]
fn single_positive_unit() {
    let f = formula(&[&[1]]);
    let a = solve(&f).expect("SAT expected");
    assert_eq!(a.get(&Lit::from_dimacs(1).unwrap().var()), Some(true));
    check_model(&f, &a);
}

#[test]
fn contradictory_units_are_unsat() {
    let f = formula(&[&[1], &[-1]]);
    assert!(solve(&f).is_none());
}

#[test]
fn all_assignments_refuted_is_unsat() {
    let f = formula(&[&[1, 2], &[-1, 2], &[1, -2], &[-1, -2]]);
    assert!(solve(&f).is_none());
}

#[test]
fn one_pigeon_per_hole_is_sat() {
    let f = formula(&[&[1, 2], &[3, 4], &[-1, -2], &[-3, -4], &[-1, -3], &[-2, -4]]);
    let a = solve(&f).expect("SAT expected");
    check_model(&f, &a);
}

#[test]
fn three_clause_mix_is_sat() {
    let f = formula(&[&[1, -2, 3], &[-1, 2, -3], &[2, 3]]);
    let a = solve(&f).expect("SAT expected");
    check_model(&f, &a);
}

#[test]
fn empty_formula_yields_none() {
    let f = Formula::new();
    assert!(solve(&f).is_none());
}

#[test]
fn empty_clause_beside_others_is_unsat() {
    let f = formula(&[&[], &[1]]);
    assert!(solve(&f).is_none());
}

#[test]
fn unit_chain_propagates() {
    // 1 forces 2, which forces 3
    let f = formula(&[&[1], &[-1, 2], &[-2, 3]]);
    let a = solve(&f).expect("SAT expected");
    check_model(&f, &a);
    let one = Lit::from_dimacs(1).unwrap().var();
    let two = Lit::from_dimacs(2).unwrap().var();
    let three = Lit::from_dimacs(3).unwrap().var();
    assert_eq!(a.get(&one), Some(true));
    assert_eq!(a.get(&two), Some(true));
    assert_eq!(a.get(&three), Some(true));
}

#[test]
fn larger_mixed_formula() {
    let f = formula(&[
        &[1, 4],
        &[-4, 2, 5],
        &[-5, -2],
        &[3, -1, 6],
        &[-6, -3],
        &[2, 3, -1],
        &[-2, -3, 1],
    ]);
    match solve(&f) {
        Some(a) => check_model(&f, &a),
        None => panic!("expected a satisfying assignment"),
    }
}

#[test]
fn propagation_is_idempotent() {
    // After one propagation pass reaches a fixpoint, a second pass changes
    // nothing: same outcome, same assignment, still no unit or pure work.
    let f = formula(&[&[1], &[-1, 2], &[-2, 3], &[3, 4], &[-3, -4, -5], &[5, -4, 2]]);
    let mut ctx = Context::new(&f);
    let first = ctx.propagate();
    if first == PropagateOutcome::Conflict {
        panic!("propagation should not conflict here");
    }
    let after_first = ctx.assignment().vec();
    assert!(ctx.get_unit_lit().is_none());
    assert!(ctx.get_pure_lit().is_none());

    let second = ctx.propagate();
    assert_eq!(second, PropagateOutcome::Fixpoint);
    assert_eq!(ctx.assignment().vec(), after_first);
    assert!(ctx.get_unit_lit().is_none());
    assert!(ctx.get_pure_lit().is_none());
}

#[test]
fn propagate_reports_satisfaction_and_conflict() {
    // every clause becomes satisfied during propagation
    let f = formula(&[&[1], &[1, 2]]);
    let mut ctx = Context::new(&f);
    assert_eq!(ctx.propagate(), PropagateOutcome::Satisfied);

    // contradictory units conflict
    let g = formula(&[&[1], &[-1]]);
    let mut ctx = Context::new(&g);
    assert_eq!(ctx.propagate(), PropagateOutcome::Conflict);
}

#[test]
fn pure_literal_is_taken() {
    // 3 appears only positively: pure-literal elimination may set it true
    let f = formula(&[&[1, 3], &[-1, 3], &[1, -2]]);
    let ctx = Context::new(&f);
    let pure = ctx.get_pure_lit().expect("a pure literal exists");
    assert_eq!(pure.to_dimacs(), 3);
    let a = solve(&f).expect("SAT expected");
    check_model(&f, &a);
}

#[test]
fn context_assign_reports_conflict() {
    let f = formula(&[&[1], &[-1]]);
    let mut ctx = Context::new(&f);
    let v = Lit::from_dimacs(1).unwrap().var();
    assert!(ctx.assign(&v, true) || ctx.assign_lit(&Lit::from_dimacs(-1).unwrap()));
}

#[test]
fn get_unassigned_var_sees_first_occurrence() {
    let f = formula(&[&[2, 1], &[3]]);
    let ctx = Context::new(&f);
    let v = ctx.get_unassigned_var().expect("variables exist");
    assert_eq!(v.to_dimacs(), 2);
}

#[test]
fn solutions_extend_arbitrarily() {
    // don't-care variables may take any value: extend the model and check
    let f = formula(&[&[1, 2], &[3, -1]]);
    let a = solve(&f).expect("SAT expected");
    check_model(&f, &a);
    for bits in 0..8u32 {
        let mut ext = Assignment::new();
        for (v, val) in a.vec() {
            ext.set(v, val);
        }
        for (i, name) in [1usize, 2, 3].iter().enumerate() {
            let v = hydra::Var::from_dimacs(*name).unwrap();
            if !ext.contains(&v) {
                ext.set(v, bits & (1 << i) != 0);
            }
        }
        assert_eq!(f.evaluate(&ext), Some(true));
    }
}
