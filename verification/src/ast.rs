use vstd::prelude::*;
use std::rc::Rc;
use crate::rewrite::RewriteRuleset;
use crate::rewrite::{to_cnf_spec, to_dnf_spec};
use crate::sat::{cnf_term, sat_spec, DPLLSolver};

verus! {

/// Identifier of a propositional variable.
pub type Ident = u32;

/// Shared handle to a formula node; a subtree may stand under several parents,
/// and no node is ever mutated in place.
pub type AST = Rc<ASTNode>;

/// Error reported by a formula-authoring front-end; the core itself never
/// raises it.
#[derive(Debug)]
pub enum ParseError {
    UnexpectedEndOfInput,
}

/// A propositional formula: a variable, a negation, a conjunction or a
/// disjunction. Equality of formulas is structural, never identity of handles.
#[derive(Debug, Clone, PartialEq)]
pub enum ASTNode {
    Variable(Ident),
    Not(AST),
    And(AST, AST),
    Or(AST, AST),
}

/// Truth value of a formula under an assignment of truth values to variables.
pub open spec fn eval(f: ASTNode, a: spec_fn(Ident) -> bool) -> bool
    decreases f,
{
    match f {
        ASTNode::Variable(id) => a(id),
        ASTNode::Not(p) => !eval(*p, a),
        ASTNode::And(p, q) => eval(*p, a) && eval(*q, a),
        ASTNode::Or(p, q) => eval(*p, a) || eval(*q, a),
    }
}

/// A formula is satisfiable when some assignment makes it true.
pub open spec fn satisfiable_formula(f: ASTNode) -> bool {
    exists|a: spec_fn(Ident) -> bool| eval(f, a)
}

/// Every variable identifier in the formula lies below `n`.
pub open spec fn vars_below(f: ASTNode, n: nat) -> bool
    decreases f,
{
    match f {
        ASTNode::Variable(id) => id < n,
        ASTNode::Not(p) => vars_below(*p, n),
        ASTNode::And(p, q) => vars_below(*p, n) && vars_below(*q, n),
        ASTNode::Or(p, q) => vars_below(*p, n) && vars_below(*q, n),
    }
}

/// Truth value of `f` under the assignment that maps identifier `i` to `a[i]`.
pub fn evaluate(f: &AST, a: &Vec<bool>) -> (r: bool)
    requires
        vars_below(**f, a@.len() as nat),
    ensures
        r == eval(**f, |i: Ident| a@[i as int]),
    decreases **f,
{
    match &**f {
        ASTNode::Variable(id) => a[*id as usize],
        ASTNode::Not(p) => !evaluate(p, a),
        ASTNode::And(p, q) => {
            let l = evaluate(p, a);
            l && evaluate(q, a)
        },
        ASTNode::Or(p, q) => {
            let l = evaluate(p, a);
            l || evaluate(q, a)
        },
    }
}

/// Construction and normalization interface of shared formula handles.
pub trait AbstractSyntaxTree: Sized {
    /// The formula node a handle stands for.
    spec fn node(&self) -> ASTNode;

    fn variable(ident: Ident) -> (r: AST)
        ensures
            *r == ASTNode::Variable(ident),
    ;

    fn and(&self, other: AST) -> (r: AST)
        ensures
            *r == ASTNode::And(Rc::new(self.node()), Rc::new(*other)),
    ;

    fn or(&self, other: AST) -> (r: AST)
        ensures
            *r == ASTNode::Or(Rc::new(self.node()), Rc::new(*other)),
    ;

    fn not(&self) -> (r: AST)
        ensures
            *r == ASTNode::Not(Rc::new(self.node())),
    ;

    fn dnf(&self) -> (r: AST)
        ensures
            *r == to_dnf_spec(self.node()),
    ;

    fn cnf(&self) -> (r: AST)
        ensures
            *r == to_cnf_spec(self.node()),
    ;

    fn sat(&self) -> (r: bool)
        requires
            cnf_term(to_cnf_spec(self.node())),
        ensures
            r == sat_spec(self.node()),
    ;
}

impl AbstractSyntaxTree for AST {
    open spec fn node(&self) -> ASTNode {
        **self
    }

    fn variable(ident: Ident) -> (r: AST) {
        Rc::new(ASTNode::Variable(ident))
    }

    fn and(&self, other: AST) -> (r: AST) {
        Rc::new(ASTNode::And(self.clone(), other))
    }

    fn or(&self, other: AST) -> (r: AST) {
        Rc::new(ASTNode::Or(self.clone(), other))
    }

    fn not(&self) -> (r: AST) {
        Rc::new(ASTNode::Not(self.clone()))
    }

    fn dnf(&self) -> (r: AST) {
        let ruleset = RewriteRuleset::dnf_conversion();
        ruleset.rewrite_recursive_hull(self.clone())
    }

    fn cnf(&self) -> (r: AST) {
        let ruleset = RewriteRuleset::cnf_conversion();
        ruleset.rewrite_recursive_hull(self.clone())
    }

    fn sat(&self) -> (r: bool) {
        let mut solver = DPLLSolver::from_ast(self);
        solver.dpll()
    }
}

} // verus!
