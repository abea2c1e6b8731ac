//! Differential testing against varisat, a CDCL reference solver: on random
//! small CNF formulas, both solvers must agree on satisfiability, and every
//! assignment this solver returns must really satisfy the formula.

use hydra::{solve, Clause, Formula};
use varisat::ExtendFormula;

/// Adds random clauses of `width` literals over variables `0..pool` until
/// the formula becomes unsatisfiable, comparing the verdicts at every step.
fn differential_run(width: usize, pool: usize, max_clauses: usize) {
    let mut f = Formula::new();
    let mut reference = varisat::Solver::new();

    for _ in 0..max_clauses {
        let clause = Clause::random(width, 0..pool).unwrap();
        f.add_clause(clause.clone());

        let mut vc = Vec::new();
        for lit in clause.literals() {
            vc.push(varisat::Lit::from_dimacs(lit.to_dimacs()));
        }
        reference.add_clause(&vc);

        let solution = solve(&f);
        let sat = solution.is_some();

        let reference_sat = reference.solve().expect("reference solver failed");

        assert_eq!(
            sat, reference_sat,
            "solvers disagree after {} clauses",
            f.clauses().len()
        );

        if let Some(a) = solution {
            for c in f.clauses() {
                assert_eq!(c.evaluate(&a), Some(true), "returned model misses {:?}", c);
            }
        } else {
            return;
        }
    }
}

#[test]
fn agrees_with_reference_on_random_three_cnf() {
    for _ in 0..8 {
        differential_run(3, 9, 200);
    }
}

#[test]
fn agrees_with_reference_on_random_five_cnf() {
    for _ in 0..8 {
        differential_run(5, 9, 400);
    }
}
