use proplogic::ast::{evaluate, ASTNode, AbstractSyntaxTree, AST};
use proplogic::sat::{is_cnf_term, Clause, DPLLSolver, Literal, Polarity};

fn var(id: u32) -> AST {
    <AST as AbstractSyntaxTree>::variable(id)
}

/// True when some assignment over `n` variables makes the formula true.
fn brute_force_satisfiable(f: &AST, n: u32) -> bool {
    for mask in 0..(1u32 << n) {
        let assignment: Vec<bool> = (0..n).map(|i| mask & (1 << i) != 0).collect();
        if evaluate(f, &assignment) {
            return true;
        }
    }
    false
}

/// The formula of the demo: not not (((not (c or d) and (a or not not b)) and not a) and not b)
/// over a = 0, b = 1, c = 2, d = 3.
fn demo_formula() -> AST {
    let a = var(0);
    let b = var(1);
    let c = var(2);
    let d = var(3);
    let inner = c
        .or(d.clone())
        .not()
        .and(a.or(b.not().not()))
        .and(a.not())
        .and(b.not());
    inner.not().not()
}

#[test]
fn constructors_build_the_expected_nodes() {
    let a = var(7);
    assert_eq!(*a, ASTNode::Variable(7));
    let f = a.and(var(8)).or(var(9)).not();
    match &*f {
        ASTNode::Not(inner) => match &**inner {
            ASTNode::Or(lhs, rhs) => {
                assert_eq!(**rhs, ASTNode::Variable(9));
                assert!(matches!(&**lhs, ASTNode::And(_, _)));
            }
            _ => panic!("expected a disjunction"),
        },
        _ => panic!("expected a negation"),
    }
}

#[test]
fn evaluate_matches_truth_tables() {
    let a = var(0);
    let b = var(1);
    let conj = a.and(b.clone());
    let disj = a.or(b.clone());
    let neg = a.not();
    assert!(evaluate(&conj, &vec![true, true]));
    assert!(!evaluate(&conj, &vec![true, false]));
    assert!(evaluate(&disj, &vec![false, true]));
    assert!(!evaluate(&disj, &vec![false, false]));
    assert!(evaluate(&neg, &vec![false]));
    assert!(!evaluate(&neg, &vec![true]));
}

#[test]
fn cnf_preserves_semantics_by_truth_table() {
    for (f, n) in sample_formulas() {
        let cnf = f.cnf();
        for mask in 0..(1u32 << n) {
            let assignment: Vec<bool> = (0..n).map(|i| mask & (1 << i) != 0).collect();
            assert_eq!(
                evaluate(&f, &assignment),
                evaluate(&cnf, &assignment),
                "cnf changed the truth table"
            );
        }
    }
}

#[test]
fn dnf_preserves_semantics_by_truth_table() {
    for (f, n) in sample_formulas() {
        let dnf = f.dnf();
        for mask in 0..(1u32 << n) {
            let assignment: Vec<bool> = (0..n).map(|i| mask & (1 << i) != 0).collect();
            assert_eq!(
                evaluate(&f, &assignment),
                evaluate(&dnf, &assignment),
                "dnf changed the truth table"
            );
        }
    }
}

fn sample_formulas() -> Vec<(AST, u32)> {
    let a = var(0);
    let b = var(1);
    let c = var(2);
    vec![
        (a.clone(), 1),
        (a.not(), 1),
        (a.not().not().not(), 1),
        (a.and(b.clone()), 2),
        (a.or(b.clone()), 2),
        (a.and(b.clone()).not(), 2),
        (a.or(b.clone()).not(), 2),
        (a.or(b.and(c.clone())), 3),
        (a.and(b.or(c.clone())), 3),
        (a.not().or(b.not().and(c.not())), 3),
        (a.and(b.clone()).or(c.clone()).not(), 3),
        (demo_formula(), 4),
    ]
}

#[test]
fn cnf_is_idempotent_on_samples() {
    for (f, _) in sample_formulas() {
        let once = f.cnf();
        let twice = once.cnf();
        assert_eq!(*once, *twice, "a second cnf pass changed the formula");
    }
}

#[test]
fn dnf_is_idempotent_on_samples() {
    for (f, _) in sample_formulas() {
        let once = f.dnf();
        let twice = once.dnf();
        assert_eq!(*once, *twice, "a second dnf pass changed the formula");
    }
}

/// No negation of a composite formula and no conjunction directly to the
/// right of a disjunction may survive conversion.
fn cnf_shaped(f: &AST) -> bool {
    match &**f {
        ASTNode::Variable(_) => true,
        ASTNode::Not(p) => matches!(&**p, ASTNode::Variable(_)),
        ASTNode::And(p, q) => cnf_shaped(p) && cnf_shaped(q),
        ASTNode::Or(p, q) => {
            !matches!(&**q, ASTNode::And(_, _)) && cnf_shaped(p) && cnf_shaped(q)
        }
    }
}

#[test]
fn cnf_results_have_normal_shape() {
    for (f, _) in sample_formulas() {
        let cnf = f.cnf();
        assert!(cnf_shaped(&cnf), "cnf left a reducible node");
    }
}

#[test]
fn sat_matches_brute_force_enumeration() {
    for (f, n) in sample_formulas() {
        let cnf = f.cnf();
        assert!(is_cnf_term(&cnf), "sample did not normalize to clauses");
        assert_eq!(
            f.sat(),
            brute_force_satisfiable(&f, n),
            "solver disagrees with enumeration"
        );
    }
}

#[test]
fn left_conjunction_under_disjunction_is_not_normalized() {
    // The conversion rules only distribute a disjunction over a conjunction
    // standing to its right; this formula is a fixed point of the ruleset
    // that is still no conjunction of clauses, so the solver's precondition
    // rejects it.
    let f = var(0).and(var(1)).or(var(2));
    let cnf = f.cnf();
    assert_eq!(*cnf, *f);
    assert!(!is_cnf_term(&cnf));
}

#[test]
fn contradiction_is_unsatisfiable() {
    for id in [0u32, 3, 17, 1000] {
        let v = var(id);
        assert!(!v.and(v.not()).sat());
    }
}

#[test]
fn excluded_middle_is_satisfiable() {
    for id in [0u32, 3, 17, 1000] {
        let v = var(id);
        assert!(v.or(v.not()).sat());
    }
}

#[test]
fn double_negation_keeps_satisfiability() {
    for (f, _) in sample_formulas() {
        let doubled = f.not().not();
        assert_eq!(doubled.sat(), f.sat());
    }
}

#[test]
fn demo_formula_matches_brute_force() {
    // The formula conjoins (a or not not b) with not a and not b, so no
    // assignment satisfies it; the solver must agree with enumeration.
    let f = demo_formula();
    assert!(!evaluate(&f, &vec![false, false, false, false]));
    assert!(!brute_force_satisfiable(&f, 4));
    assert!(!f.sat());
}

#[test]
fn solver_with_no_clauses_is_satisfiable() {
    let mut solver = DPLLSolver { clauses: vec![] };
    assert!(solver.dpll());
}

#[test]
fn solver_with_an_empty_clause_is_unsatisfiable() {
    let mut solver = DPLLSolver {
        clauses: vec![Clause { literals: vec![] }],
    };
    assert!(!solver.dpll());
    let mut mixed = DPLLSolver {
        clauses: vec![
            Clause::unit(Literal {
                identifier: 0,
                polarity: Polarity::Positive,
            }),
            Clause { literals: vec![] },
        ],
    };
    assert!(!mixed.dpll());
}

#[test]
fn clause_operations_behave_as_sets_of_literals() {
    let pos = Literal {
        identifier: 4,
        polarity: Polarity::Positive,
    };
    let neg = pos.not();
    assert_eq!(neg.identifier, 4);
    assert_eq!(neg.polarity, Polarity::Negative);
    assert_eq!(neg.not(), pos);
    assert_eq!(Polarity::Positive.flip(), Polarity::Negative);

    let unit = Clause::unit(pos);
    assert!(unit.is_unit_clause());
    assert!(!unit.is_empty());
    assert!(unit.contains(&pos));
    assert!(!unit.contains(&neg));

    let mut both = Clause {
        literals: vec![pos, neg],
    };
    assert!(!both.is_unit_clause());
    both.remove(&pos);
    assert!(both.is_unit_clause());
    assert!(both.contains(&neg));
    both.remove(&neg);
    assert!(both.is_empty());
}
