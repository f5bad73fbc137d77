use proplogic::ast::{ASTNode, AbstractSyntaxTree, AST};
use proplogic::rewrite::{RewriteRule, RewriteRuleset};

fn var(id: u32) -> AST {
    <AST as AbstractSyntaxTree>::variable(id)
}

/// not not x  |-  x
fn double_negation_rule() -> RewriteRule {
    RewriteRule {
        name: "double negation elimination",
        top: var(0).not().not(),
        bot: var(0),
    }
}

/// not (x or y)  |-  not x and not y
fn de_morgan_or_rule() -> RewriteRule {
    RewriteRule {
        name: "de morgan's theorem for disjunction",
        top: var(0).or(var(1)).not(),
        bot: var(0).not().and(var(1).not()),
    }
}

#[test]
fn rule_match_failure_is_a_silent_no_op() {
    let rule = double_negation_rule();
    let target = var(5).and(var(6)).not();
    let result = rule.rewrite(target.clone());
    assert_eq!(*result, *target);
}

#[test]
fn rule_match_substitutes_the_bound_subtree() {
    let rule = double_negation_rule();
    let body = var(3).or(var(4));
    let result = rule.rewrite(body.not().not());
    assert_eq!(*result, *body);
}

#[test]
fn rule_binds_pattern_variables_on_both_sides() {
    let rule = de_morgan_or_rule();
    let result = rule.rewrite(var(8).or(var(9)).not());
    assert_eq!(*result, *var(8).not().and(var(9).not()));
}

#[test]
fn ruleset_applies_rules_in_declared_order() {
    let ruleset = RewriteRuleset {
        name: "two-step",
        rules: vec![de_morgan_or_rule(), double_negation_rule()],
    };
    // The first rule rewrites the root, the second then matches its output
    // only at the root, where it fails; a single pass stops there.
    let result = ruleset.rewrite(var(0).or(var(1)).not());
    assert_eq!(*result, *var(0).not().and(var(1).not()));
}

#[test]
fn recursive_pass_reaches_subtrees() {
    let ruleset = RewriteRuleset {
        name: "double negation only",
        rules: vec![double_negation_rule()],
    };
    let target = var(1).not().not().and(var(2).not().not().not());
    let result = ruleset.rewrite_recursive(target);
    assert_eq!(*result, *var(1).and(var(2).not()));
}

#[test]
fn hull_rewrites_to_a_fixed_point() {
    let ruleset = RewriteRuleset {
        name: "double negation only",
        rules: vec![double_negation_rule()],
    };
    let target = var(1).not().not().not().not().not();
    let result = ruleset.rewrite_recursive_hull(target);
    assert_eq!(*result, *var(1).not());
}

#[test]
fn cnf_distributes_disjunction_over_conjunction() {
    let f = var(0).or(var(1).and(var(2)));
    let cnf = f.cnf();
    assert_eq!(*cnf, *var(0).or(var(1)).and(var(0).or(var(2))));
}

#[test]
fn dnf_distributes_conjunction_over_disjunction() {
    let f = var(0).and(var(1).or(var(2)));
    let dnf = f.dnf();
    assert_eq!(*dnf, *var(0).and(var(1)).or(var(0).and(var(2))));
}

#[test]
fn cnf_pushes_negations_to_the_leaves() {
    let f = var(0).and(var(1)).not();
    assert_eq!(*f.cnf(), *var(0).not().or(var(1).not()));
    let g = var(0).or(var(1)).not();
    assert_eq!(*g.cnf(), *var(0).not().and(var(1).not()));
}
