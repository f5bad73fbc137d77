use vstd::prelude::*;
use crate::ast::{ASTNode, AbstractSyntaxTree, Ident, AST};
use crate::rewrite::to_cnf_spec;

verus! {

/// Depth bound for the branch-and-backtrack recursion. The bound is far
/// beyond the depth any clause set that fits in memory can force.
pub const DPLL_FUEL: u64 = 0xffff_ffff_ffff_ffff;

/// Sign of a literal.
#[derive(Debug, Hash, PartialEq, Eq, Clone, Copy, Structural)]
pub enum Polarity {
    Positive,
    Negative,
}

impl Polarity {
    /// The opposite sign.
    pub fn flip(&self) -> (r: Polarity)
        ensures
            r == flip_spec(*self),
    {
        match self {
            Polarity::Positive => Polarity::Negative,
            Polarity::Negative => Polarity::Positive,
        }
    }
}

/// The opposite sign.
pub open spec fn flip_spec(p: Polarity) -> Polarity {
    match p {
        Polarity::Positive => Polarity::Negative,
        Polarity::Negative => Polarity::Positive,
    }
}

/// A variable together with a sign.
#[derive(Debug, Hash, PartialEq, Eq, Clone, Copy, Structural)]
pub struct Literal {
    pub identifier: Ident,
    pub polarity: Polarity,
}

/// The complement of a literal.
pub open spec fn negate(l: Literal) -> Literal {
    Literal { identifier: l.identifier, polarity: flip_spec(l.polarity) }
}

impl Literal {
    /// The complement of this literal.
    pub fn not(&self) -> (r: Self)
        ensures
            r == negate(*self),
    {
        Self { identifier: self.identifier, polarity: self.polarity.flip() }
    }
}

/// A disjunction of literals, kept as the sequence in which they were first
/// collected.
#[derive(Debug)]
pub struct Clause {
    pub literals: Vec<Literal>,
}

impl View for Clause {
    type V = Seq<Literal>;

    open spec fn view(&self) -> Seq<Literal> {
        self.literals@
    }
}

/// The literal sequences of a sequence of clauses.
pub open spec fn views(cs: Seq<Clause>) -> Seq<Seq<Literal>> {
    cs.map_values(|c: Clause| c@)
}

impl Clause {
    /// The clause holding exactly one literal.
    pub fn unit(unit: Literal) -> (r: Self)
        ensures
            r@ == seq![unit],
    {
        let r = Self { literals: vec![unit] };
        proof {
            assert(r@ =~= seq![unit]);
        }
        r
    }

    /// Whether the clause holds exactly one literal.
    pub fn is_unit_clause(&self) -> (r: bool)
        ensures
            r == (self@.len() == 1),
    {
        self.literals.len() == 1
    }

    /// Whether the clause holds no literal.
    pub fn is_empty(&self) -> (r: bool)
        ensures
            r == (self@.len() == 0),
    {
        self.literals.len() == 0
    }

    /// Whether the clause holds the literal.
    pub fn contains(&self, literal: &Literal) -> (r: bool)
        ensures
            r == self@.contains(*literal),
    {
        let n = self.literals.len();
        let mut i: usize = 0;
        while i < n
            invariant
                n == self@.len(),
                i <= n,
                forall|j: int| 0 <= j < i ==> self@[j] != *literal,
            decreases n - i,
        {
            if self.literals[i] == *literal {
                return true;
            }
            i = i + 1;
        }
        false
    }

    /// Remove every occurrence of the literal.
    pub fn remove(&mut self, literal: &Literal)
        ensures
            final(self)@ == remove_lit(old(self)@, *literal),
    {
        let n = self.literals.len();
        let mut kept: Vec<Literal> = Vec::new();
        let mut i: usize = 0;
        while i < n
            invariant
                n == self.literals@.len(),
                i <= n,
                kept@ == remove_lit(self.literals@.take(i as int), *literal),
            decreases n - i,
        {
            proof {
                assert(self.literals@.take(i as int + 1).drop_last() =~= self.literals@.take(
                    i as int,
                ));
            }
            let lit = self.literals[i];
            if !(lit == *literal) {
                kept.push(lit);
            }
            i = i + 1;
        }
        proof {
            assert(self.literals@.take(n as int) =~= self.literals@);
        }
        self.literals = kept;
    }

    /// A structurally equal copy of the clause.
    pub fn duplicate(&self) -> (r: Self)
        ensures
            r@ == self@,
    {
        let n = self.literals.len();
        let mut lits: Vec<Literal> = Vec::new();
        let mut i: usize = 0;
        while i < n
            invariant
                n == self.literals@.len(),
                i <= n,
                lits@ == self.literals@.take(i as int),
            decreases n - i,
        {
            proof {
                assert(self.literals@.take(i as int + 1).drop_last() =~= self.literals@.take(
                    i as int,
                ));
            }
            lits.push(self.literals[i]);
            i = i + 1;
        }
        proof {
            assert(self.literals@.take(n as int) =~= self.literals@);
        }
        Self { literals: lits }
    }
}

/// The sequence with every occurrence of the literal removed.
pub open spec fn remove_lit(c: Seq<Literal>, l: Literal) -> Seq<Literal>
    decreases c.len(),
{
    if c.len() == 0 {
        Seq::empty()
    } else if c.last() == l {
        remove_lit(c.drop_last(), l)
    } else {
        remove_lit(c.drop_last(), l).push(c.last())
    }
}

/// The clauses that do not hold the literal; the others are satisfied by it.
pub open spec fn drop_sat(cs: Seq<Seq<Literal>>, l: Literal) -> Seq<Seq<Literal>>
    decreases cs.len(),
{
    if cs.len() == 0 {
        Seq::empty()
    } else if cs.last().contains(l) {
        drop_sat(cs.drop_last(), l)
    } else {
        drop_sat(cs.drop_last(), l).push(cs.last())
    }
}

/// Every clause with every occurrence of the literal removed.
pub open spec fn strike(cs: Seq<Seq<Literal>>, l: Literal) -> Seq<Seq<Literal>>
    decreases cs.len(),
{
    if cs.len() == 0 {
        Seq::empty()
    } else {
        strike(cs.drop_last(), l).push(remove_lit(cs.last(), l))
    }
}

/// The literal of the first clause holding exactly one.
pub open spec fn first_unit(cs: Seq<Seq<Literal>>) -> Option<Literal>
    decreases cs.len(),
{
    if cs.len() == 0 {
        None
    } else if cs[0].len() == 1 {
        Some(cs[0][0])
    } else {
        first_unit(cs.drop_first())
    }
}

pub proof fn lemma_strike_same_len(cs: Seq<Seq<Literal>>, l: Literal)
    ensures
        strike(cs, l).len() == cs.len(),
    decreases cs.len(),
{
    if cs.len() > 0 {
        lemma_strike_same_len(cs.drop_last(), l);
    }
}

pub proof fn lemma_drop_sat_shrinks(cs: Seq<Seq<Literal>>, l: Literal)
    ensures
        drop_sat(cs, l).len() <= cs.len(),
        (exists|i: int| 0 <= i < cs.len() && (#[trigger] cs[i]).contains(l)) ==> drop_sat(cs, l).len()
            < cs.len(),
    decreases cs.len(),
{
    if cs.len() > 0 {
        lemma_drop_sat_shrinks(cs.drop_last(), l);
        if exists|i: int| 0 <= i < cs.len() && (#[trigger] cs[i]).contains(l) {
            let i = choose|i: int| 0 <= i < cs.len() && (#[trigger] cs[i]).contains(l);
            if i < cs.len() - 1 {
                assert(cs.drop_last()[i] == cs[i]);
            }
        }
    }
}

pub proof fn lemma_first_unit_gives_contains(cs: Seq<Seq<Literal>>, l: Literal)
    requires
        first_unit(cs) == Some(l),
    ensures
        exists|i: int| 0 <= i < cs.len() && (#[trigger] cs[i]).contains(l),
    decreases cs.len(),
{
    if cs.len() > 0 {
        if cs[0].len() == 1 {
            assert(cs[0][0] == l);
            assert(cs[0].contains(l));
        } else {
            lemma_first_unit_gives_contains(cs.drop_first(), l);
            let i = choose|i: int|
                0 <= i < cs.drop_first().len() && (#[trigger] cs.drop_first()[i]).contains(l);
            assert(cs[i + 1].contains(l));
        }
    }
}

/// One unit-propagation step followed by the rest of the propagation.
pub open spec fn propagate_spec(cs: Seq<Seq<Literal>>) -> Seq<Seq<Literal>>
    decreases cs.len(),
    via propagate_spec_decreases
{
    match first_unit(cs) {
        None => cs,
        Some(l) => propagate_spec(strike(drop_sat(cs, l), negate(l))),
    }
}

#[via_fn]
proof fn propagate_spec_decreases(cs: Seq<Seq<Literal>>) {
    match first_unit(cs) {
        None => {},
        Some(l) => {
            lemma_first_unit_gives_contains(cs, l);
            lemma_drop_sat_shrinks(cs, l);
            lemma_strike_same_len(drop_sat(cs, l), negate(l));
        },
    }
}

/// All literals occurring in the clause set, in clause order.
pub open spec fn all_lits(cs: Seq<Seq<Literal>>) -> Seq<Literal>
    decreases cs.len(),
{
    if cs.len() == 0 {
        Seq::empty()
    } else {
        all_lits(cs.drop_last()) + cs.last()
    }
}

/// A literal is pure when its complement occurs in no clause.
pub open spec fn is_pure(cs: Seq<Seq<Literal>>, l: Literal) -> bool {
    !all_lits(cs).contains(negate(l))
}

/// Whether the clause holds a literal pure in the whole set.
pub open spec fn clause_has_pure(all: Seq<Seq<Literal>>, c: Seq<Literal>) -> bool {
    exists|k: int| 0 <= k < c.len() && is_pure(all, #[trigger] c[k])
}

pub open spec fn pure_elim_go(all: Seq<Seq<Literal>>, cs: Seq<Seq<Literal>>) -> Seq<Seq<Literal>>
    decreases cs.len(),
{
    if cs.len() == 0 {
        Seq::empty()
    } else if clause_has_pure(all, cs.last()) {
        pure_elim_go(all, cs.drop_last())
    } else {
        pure_elim_go(all, cs.drop_last()).push(cs.last())
    }
}

/// Remove every clause holding a literal whose complement occurs nowhere; such
/// a clause is satisfied by giving the pure literal its own sign.
pub open spec fn pure_elim_spec(cs: Seq<Seq<Literal>>) -> Seq<Seq<Literal>> {
    pure_elim_go(cs, cs)
}

/// The decision of the clause set: unit propagation, pure-literal
/// elimination, the two termination checks, then branching on the first
/// literal of the first clause. `fuel` bounds the branching depth.
pub open spec fn dpll_spec(cs: Seq<Seq<Literal>>, fuel: nat) -> bool
    decreases fuel,
{
    let cs1 = pure_elim_spec(propagate_spec(cs));
    if cs1.len() == 0 {
        true
    } else if exists|i: int| 0 <= i < cs1.len() && (#[trigger] cs1[i]).len() == 0 {
        false
    } else if fuel == 0 {
        false
    } else {
        let l = cs1[0][0];
        dpll_spec(cs1.push(seq![negate(l)]), (fuel - 1) as nat) || dpll_spec(
            cs1.push(seq![l]),
            (fuel - 1) as nat,
        )
    }
}

/// Truth value of a literal under an assignment.
pub open spec fn lit_sat(a: spec_fn(Ident) -> bool, l: Literal) -> bool {
    a(l.identifier) == (l.polarity is Positive)
}

/// A clause is satisfied when some literal of it is.
pub open spec fn clause_sat(a: spec_fn(Ident) -> bool, c: Seq<Literal>) -> bool {
    exists|k: int| 0 <= k < c.len() && lit_sat(a, #[trigger] c[k])
}

/// A clause set is satisfied when every clause is.
pub open spec fn clauses_sat(a: spec_fn(Ident) -> bool, cs: Seq<Seq<Literal>>) -> bool {
    forall|i: int| 0 <= i < cs.len() ==> clause_sat(a, #[trigger] cs[i])
}

/// A clause set is satisfiable when some assignment satisfies it.
pub open spec fn satisfiable_clauses(cs: Seq<Seq<Literal>>) -> bool {
    exists|a: spec_fn(Ident) -> bool| clauses_sat(a, cs)
}

/// A disjunction of literals: a variable, a negated variable, or a
/// disjunction of two such terms.
pub open spec fn clause_term(t: ASTNode) -> bool
    decreases t,
{
    match t {
        ASTNode::Variable(_) => true,
        ASTNode::Not(p) => *p is Variable,
        ASTNode::Or(p, q) => clause_term(*p) && clause_term(*q),
        ASTNode::And(_, _) => false,
    }
}

/// A conjunction of disjunctions of literals.
pub open spec fn cnf_term(t: ASTNode) -> bool
    decreases t,
{
    match t {
        ASTNode::And(p, q) => cnf_term(*p) && cnf_term(*q),
        _ => clause_term(t),
    }
}

/// The literals of a disjunctive term, left to right.
pub open spec fn lits_of(t: ASTNode) -> Seq<Literal>
    decreases t,
{
    match t {
        ASTNode::Variable(id) => seq![Literal { identifier: id, polarity: Polarity::Positive }],
        ASTNode::Not(p) => match *p {
            ASTNode::Variable(id) => seq![
                Literal { identifier: id, polarity: Polarity::Negative },
            ],
            _ => Seq::empty(),
        },
        ASTNode::Or(p, q) => lits_of(*p) + lits_of(*q),
        ASTNode::And(_, _) => Seq::empty(),
    }
}

/// The sequence with later copies of earlier literals dropped.
pub open spec fn dedup(s: Seq<Literal>) -> Seq<Literal>
    decreases s.len(),
{
    if s.len() == 0 {
        Seq::empty()
    } else if s.drop_last().contains(s.last()) {
        dedup(s.drop_last())
    } else {
        dedup(s.drop_last()).push(s.last())
    }
}

/// The clause sequences of a formula in conjunctive normal form: the
/// conjuncts flattened left to right, each one the deduplicated literals of
/// its disjunctive chain.
pub open spec fn clauses_of(t: ASTNode) -> Seq<Seq<Literal>>
    decreases t,
{
    match t {
        ASTNode::And(p, q) => clauses_of(*p) + clauses_of(*q),
        _ => seq![dedup(lits_of(t))],
    }
}

pub proof fn lemma_push_contains<T>(s: Seq<T>, x: T, l: T)
    ensures
        s.push(x).contains(l) == (s.contains(l) || x == l),
{
    if s.push(x).contains(l) {
        let i = choose|i: int| 0 <= i < s.push(x).len() && s.push(x)[i] == l;
        if i < s.len() {
            assert(s[i] == l);
        }
    }
    if s.contains(l) {
        let i = choose|i: int| 0 <= i < s.len() && s[i] == l;
        assert(s.push(x)[i] == l);
    }
    if x == l {
        assert(s.push(x)[s.len() as int] == l);
    }
}

pub proof fn lemma_all_lits_contains(cs: Seq<Seq<Literal>>, l: Literal)
    ensures
        all_lits(cs).contains(l) == exists|i: int|
            0 <= i < cs.len() && (#[trigger] cs[i]).contains(l),
    decreases cs.len(),
{
    if cs.len() > 0 {
        lemma_all_lits_contains(cs.drop_last(), l);
        assert(all_lits(cs) == all_lits(cs.drop_last()) + cs.last());
        if all_lits(cs).contains(l) {
            let i = choose|i: int| 0 <= i < all_lits(cs).len() && all_lits(cs)[i] == l;
            if i < all_lits(cs.drop_last()).len() {
                assert(all_lits(cs.drop_last())[i] == l);
                let j = choose|j: int|
                    0 <= j < cs.drop_last().len() && (#[trigger] cs.drop_last()[j]).contains(l);
                assert(cs[j].contains(l));
            } else {
                assert(cs.last()[i - all_lits(cs.drop_last()).len()] == l);
                assert(cs[cs.len() - 1].contains(l));
            }
        }
        if exists|i: int| 0 <= i < cs.len() && (#[trigger] cs[i]).contains(l) {
            let i = choose|i: int| 0 <= i < cs.len() && (#[trigger] cs[i]).contains(l);
            let j = choose|j: int| 0 <= j < cs[i].len() && cs[i][j] == l;
            if i < cs.len() - 1 {
                assert(cs.drop_last()[i].contains(l));
                let k = choose|k: int|
                    0 <= k < all_lits(cs.drop_last()).len() && all_lits(cs.drop_last())[k] == l;
                assert(all_lits(cs)[k] == l);
            } else {
                assert(all_lits(cs)[all_lits(cs.drop_last()).len() + j] == l);
            }
        }
    }
}

/// Deduplication keeps exactly the literals that were there before.
pub proof fn lemma_dedup_contains(s: Seq<Literal>, l: Literal)
    ensures
        dedup(s).contains(l) == s.contains(l),
    decreases s.len(),
{
    if s.len() > 0 {
        lemma_dedup_contains(s.drop_last(), l);
        lemma_push_contains(dedup(s.drop_last()), s.last(), l);
        if s.contains(l) {
            let i = choose|i: int| 0 <= i < s.len() && s[i] == l;
            if i < s.len() - 1 {
                assert(s.drop_last()[i] == l);
            }
        }
        if s.drop_last().contains(l) {
            let i = choose|i: int| 0 <= i < s.drop_last().len() && s.drop_last()[i] == l;
            assert(s[i] == l);
        }
    }
}

fn collect_literals(ast: &AST, acc: &mut Vec<Literal>)
    requires
        clause_term(**ast),
    ensures
        final(acc)@ == old(acc)@ + lits_of(**ast),
    decreases **ast,
{
    match &**ast {
        ASTNode::Variable(ident) => {
            acc.push(Literal { identifier: *ident, polarity: Polarity::Positive });
            proof {
                assert(acc@ =~= old(acc)@ + lits_of(**ast));
            }
        },
        ASTNode::Not(variable) => match &**variable {
            ASTNode::Variable(ident) => {
                acc.push(Literal { identifier: *ident, polarity: Polarity::Negative });
                proof {
                    assert(acc@ =~= old(acc)@ + lits_of(**ast));
                }
            },
            _ => {
                proof {
                    assert(false);
                }
            },
        },
        ASTNode::Or(p1, p2) => {
            collect_literals(p1, acc);
            collect_literals(p2, acc);
            proof {
                assert(acc@ =~= old(acc)@ + lits_of(**ast));
            }
        },
        ASTNode::And(_, _) => {
            proof {
                assert(false);
            }
        },
    }
}

/// The clause of one conjunct: its literal chain flattened and deduplicated.
fn generate_clause_from_subtree(ast: &AST) -> (r: Clause)
    requires
        clause_term(**ast),
    ensures
        r@ == dedup(lits_of(**ast)),
{
    let mut raw: Vec<Literal> = Vec::new();
    collect_literals(ast, &mut raw);
    proof {
        assert(raw@ =~= lits_of(**ast));
    }
    let n = raw.len();
    let mut literals: Vec<Literal> = Vec::new();
    let mut i: usize = 0;
    while i < n
        invariant
            n == raw@.len(),
            i <= n,
            literals@ == dedup(raw@.take(i as int)),
        decreases n - i,
    {
        proof {
            assert(raw@.take(i as int + 1).drop_last() =~= raw@.take(i as int));
        }
        let lit = raw[i];
        let c = Clause { literals };
        let seen = c.contains(&lit);
        literals = c.literals;
        if !seen {
            literals.push(lit);
        }
        proof {
            lemma_dedup_contains(raw@.take(i as int), lit);
        }
        i = i + 1;
    }
    proof {
        assert(raw@.take(n as int) =~= raw@);
    }
    Clause { literals }
}

fn collect_clauses(ast: &AST, acc: &mut Vec<Clause>)
    requires
        cnf_term(**ast),
    ensures
        views(final(acc)@) == views(old(acc)@) + clauses_of(**ast),
    decreases **ast,
{
    match &**ast {
        ASTNode::And(p1, p2) => {
            collect_clauses(p1, acc);
            collect_clauses(p2, acc);
            proof {
                assert(views(acc@) =~= views(old(acc)@) + clauses_of(**ast));
            }
        },
        _ => {
            let clause = generate_clause_from_subtree(ast);
            acc.push(clause);
            proof {
                assert(views(acc@) =~= views(old(acc)@) + clauses_of(**ast));
            }
        },
    }
}

/// The clause set of a formula in conjunctive normal form.
fn generate_clauses_from_tree(ast: &AST) -> (r: Vec<Clause>)
    requires
        cnf_term(**ast),
    ensures
        views(r@) == clauses_of(**ast),
{
    let mut clauses: Vec<Clause> = Vec::new();
    collect_clauses(ast, &mut clauses);
    proof {
        assert(views(clauses@) =~= clauses_of(**ast));
    }
    clauses
}

/// Whether the formula is a disjunction of literals.
pub fn is_clause_term(ast: &AST) -> (r: bool)
    ensures
        r == clause_term(**ast),
    decreases **ast,
{
    match &**ast {
        ASTNode::Variable(_) => true,
        ASTNode::Not(p) => matches!(&**p, ASTNode::Variable(_)),
        ASTNode::Or(p1, p2) => {
            let left = is_clause_term(p1);
            left && is_clause_term(p2)
        },
        ASTNode::And(_, _) => false,
    }
}

/// Whether the formula is a conjunction of disjunctions of literals, so that
/// clause extraction is defined on it.
pub fn is_cnf_term(ast: &AST) -> (r: bool)
    ensures
        r == cnf_term(**ast),
    decreases **ast,
{
    match &**ast {
        ASTNode::And(p1, p2) => {
            let left = is_cnf_term(p1);
            left && is_cnf_term(p2)
        },
        _ => is_clause_term(ast),
    }
}

/// Satisfiability of a formula as the solver decides it: conversion to
/// conjunctive normal form, clause extraction, then the decision procedure.
pub open spec fn sat_spec(f: ASTNode) -> bool {
    dpll_spec(clauses_of(to_cnf_spec(f)), DPLL_FUEL as nat)
}

/// A backtracking satisfiability solver over a clause set.
#[derive(Debug)]
pub struct DPLLSolver {
    pub clauses: Vec<Clause>,
}

impl DPLLSolver {
    /// The solver for the clause set of the formula's conjunctive normal
    /// form.
    pub fn from_ast(value: &AST) -> (r: Self)
        requires
            cnf_term(to_cnf_spec(**value)),
        ensures
            views(r.clauses@) == clauses_of(to_cnf_spec(**value)),
    {
        let cnf = value.cnf();
        Self { clauses: generate_clauses_from_tree(&cnf) }
    }

    /// A structurally equal copy of the clause set.
    fn duplicate(&self) -> (r: Self)
        ensures
            views(r.clauses@) == views(self.clauses@),
    {
        let n = self.clauses.len();
        let mut clauses: Vec<Clause> = Vec::new();
        let mut i: usize = 0;
        while i < n
            invariant
                n == self.clauses@.len(),
                i <= n,
                views(clauses@) == views(self.clauses@.take(i as int)),
            decreases n - i,
        {
            proof {
                assert(views(self.clauses@.take(i as int)).push(self.clauses@[i as int]@) =~= views(
                    self.clauses@.take(i as int + 1),
                ));
            }
            let c = self.clauses[i].duplicate();
            clauses.push(c);
            proof {
                assert(views(clauses@) =~= views(clauses@.drop_last()).push(clauses@.last()@));
            }
            i = i + 1;
        }
        proof {
            assert(self.clauses@.take(n as int) =~= self.clauses@);
        }
        Self { clauses }
    }

    /// The literal of the first unit clause, if any clause is unit.
    fn get_unit_clause(&self) -> (r: Option<Literal>)
        ensures
            r == first_unit(views(self.clauses@)),
    {
        let n = self.clauses.len();
        let mut i: usize = 0;
        proof {
            assert(views(self.clauses@).skip(0) =~= views(self.clauses@));
        }
        while i < n
            invariant
                n == self.clauses@.len(),
                i <= n,
                first_unit(views(self.clauses@)) == first_unit(
                    views(self.clauses@).skip(i as int),
                ),
            decreases n - i,
        {
            proof {
                assert(views(self.clauses@).skip(i as int).drop_first() =~= views(
                    self.clauses@,
                ).skip(i as int + 1));
            }
            let c = &self.clauses[i];
            if c.is_unit_clause() {
                return Some(c.literals[0]);
            }
            i = i + 1;
        }
        proof {
            assert(views(self.clauses@).skip(n as int) =~= Seq::<Seq<Literal>>::empty());
        }
        None
    }

    /// Remove the clauses satisfied by the unit literal and strike its
    /// complement from the rest.
    fn unit_propagate(&mut self, unit: &Literal)
        ensures
            views(final(self).clauses@) == strike(
                drop_sat(views(old(self).clauses@), *unit),
                negate(*unit),
            ),
    {
        let n = self.clauses.len();
        let not_unit = unit.not();
        let mut kept: Vec<Clause> = Vec::new();
        let mut i: usize = 0;
        while i < n
            invariant
                n == self.clauses@.len(),
                self.clauses@ == old(self).clauses@,
                not_unit == negate(*unit),
                i <= n,
                views(kept@) == strike(
                    drop_sat(views(self.clauses@.take(i as int)), *unit),
                    negate(*unit),
                ),
            decreases n - i,
        {
            proof {
                assert(views(self.clauses@.take(i as int)).push(self.clauses@[i as int]@) =~= views(
                    self.clauses@.take(i as int + 1),
                ));
            }
            let c = &self.clauses[i];
            if !c.contains(unit) {
                let mut reduced = c.duplicate();
                reduced.remove(&not_unit);
                kept.push(reduced);
                proof {
                    assert(views(kept@) =~= views(kept@.drop_last()).push(kept@.last()@));
                    let pre = views(self.clauses@.take(i as int));
                    let now = views(self.clauses@.take(i as int + 1));
                    assert(now.drop_last() =~= pre);
                    assert(now.last() == self.clauses@[i as int]@);
                    assert(drop_sat(now, *unit) == drop_sat(pre, *unit).push(now.last()));
                    let ds = drop_sat(pre, *unit);
                    assert(ds.push(now.last()).drop_last() =~= ds);
                    assert(strike(ds.push(now.last()), negate(*unit)) == strike(ds, negate(*unit)).push(
                        remove_lit(now.last(), negate(*unit)),
                    ));
                }
            } else {
                proof {
                    let pre = views(self.clauses@.take(i as int));
                    let now = views(self.clauses@.take(i as int + 1));
                    assert(now.drop_last() =~= pre);
                    assert(now.last() == self.clauses@[i as int]@);
                    assert(drop_sat(now, *unit) == drop_sat(pre, *unit));
                }
            }
            i = i + 1;
        }
        proof {
            assert(self.clauses@.take(n as int) =~= self.clauses@);
        }
        self.clauses = kept;
    }

    /// Propagate unit clauses until none is left.
    fn unit_propagation(&mut self)
        ensures
            views(final(self).clauses@) == propagate_spec(views(old(self).clauses@)),
    {
        loop
            invariant
                propagate_spec(views(self.clauses@)) == propagate_spec(views(old(self).clauses@)),
            ensures
                views(self.clauses@) == propagate_spec(views(old(self).clauses@)),
            decreases self.clauses@.len(),
        {
            let unit = match self.get_unit_clause() {
                Some(unit) => unit,
                None => {
                    break ;
                },
            };
            proof {
                lemma_first_unit_gives_contains(views(self.clauses@), unit);
                lemma_drop_sat_shrinks(views(self.clauses@), unit);
                lemma_strike_same_len(drop_sat(views(self.clauses@), unit), negate(unit));
            }
            self.unit_propagate(&unit);
        }
    }

    /// Whether the literal's complement occurs in no clause.
    fn literal_is_pure(clauses: &Vec<Clause>, literal: &Literal) -> (r: bool)
        ensures
            r == is_pure(views(clauses@), *literal),
    {
        let complement = literal.not();
        let n = clauses.len();
        let mut i: usize = 0;
        proof {
            assert(views(clauses@.take(0)) =~= Seq::<Seq<Literal>>::empty());
        }
        while i < n
            invariant
                n == clauses@.len(),
                complement == negate(*literal),
                i <= n,
                !all_lits(views(clauses@.take(i as int))).contains(complement),
            decreases n - i,
        {
            proof {
                assert(views(clauses@.take(i as int)).push(clauses@[i as int]@) =~= views(
                    clauses@.take(i as int + 1),
                ));
                let pre = views(clauses@.take(i as int));
                let now = views(clauses@.take(i as int + 1));
                assert(now.drop_last() =~= pre);
                lemma_all_lits_push(pre, clauses@[i as int]@, complement);
            }
            let c = &clauses[i];
            if c.contains(&complement) {
                proof {
                    assert(views(clauses@)[i as int] == clauses@[i as int]@);
                    lemma_all_lits_contains(views(clauses@), complement);
                }
                return false;
            }
            i = i + 1;
        }
        proof {
            assert(clauses@.take(n as int) =~= clauses@);
        }
        true
    }

    /// Whether the clause holds a literal pure in the whole set.
    fn clause_holds_pure(clauses: &Vec<Clause>, c: &Clause) -> (r: bool)
        ensures
            r == clause_has_pure(views(clauses@), c@),
    {
        let n = c.literals.len();
        let mut i: usize = 0;
        while i < n
            invariant
                n == c.literals@.len(),
                i <= n,
                forall|k: int| 0 <= k < i ==> !is_pure(views(clauses@), #[trigger] c.literals@[k]),
            decreases n - i,
        {
            let lit = c.literals[i];
            if Self::literal_is_pure(clauses, &lit) {
                return true;
            }
            i = i + 1;
        }
        false
    }

    /// Remove every clause satisfied by a pure literal.
    fn pure_literal_elimination(&mut self)
        ensures
            views(final(self).clauses@) == pure_elim_spec(views(old(self).clauses@)),
    {
        let ghost all = views(self.clauses@);
        let n = self.clauses.len();
        let mut kept: Vec<Clause> = Vec::new();
        let mut i: usize = 0;
        while i < n
            invariant
                n == self.clauses@.len(),
                self.clauses@ == old(self).clauses@,
                all == views(self.clauses@),
                i <= n,
                views(kept@) == pure_elim_go(all, views(self.clauses@.take(i as int))),
            decreases n - i,
        {
            proof {
                assert(views(self.clauses@.take(i as int)).push(self.clauses@[i as int]@) =~= views(
                    self.clauses@.take(i as int + 1),
                ));
                let pre = views(self.clauses@.take(i as int));
                let now = views(self.clauses@.take(i as int + 1));
                assert(now.drop_last() =~= pre);
            }
            let c = &self.clauses[i];
            if !Self::clause_holds_pure(&self.clauses, c) {
                let copy = c.duplicate();
                kept.push(copy);
                proof {
                    assert(views(kept@) =~= views(kept@.drop_last()).push(kept@.last()@));
                }
            }
            i = i + 1;
        }
        proof {
            assert(self.clauses@.take(n as int) =~= self.clauses@);
        }
        self.clauses = kept;
    }

    /// The solver extended by one unit clause, leaving this one as it is.
    fn with_unit_clause(&self, unit: Literal) -> (r: Self)
        ensures
            views(r.clauses@) == views(self.clauses@).push(seq![unit]),
    {
        let mut new = self.duplicate();
        new.clauses.push(Clause::unit(unit));
        proof {
            assert(views(new.clauses@) =~= views(new.clauses@.drop_last()).push(
                new.clauses@.last()@,
            ));
            assert(new.clauses@.drop_last() =~= new.clauses@.take(new.clauses@.len() - 1));
        }
        new
    }

    /// The first literal of the first clause.
    fn choose_literal(&self) -> (r: Literal)
        requires
            views(self.clauses@).len() > 0,
            views(self.clauses@)[0].len() > 0,
        ensures
            r == views(self.clauses@)[0][0],
    {
        self.clauses[0].literals[0]
    }

    /// Whether some clause holds no literal.
    fn has_empty_clause(&self) -> (r: bool)
        ensures
            r == exists|i: int|
                0 <= i < views(self.clauses@).len() && (#[trigger] views(self.clauses@)[i]).len()
                    == 0,
    {
        let n = self.clauses.len();
        let mut i: usize = 0;
        while i < n
            invariant
                n == self.clauses@.len(),
                i <= n,
                forall|j: int| 0 <= j < i ==> (#[trigger] views(self.clauses@)[j]).len() != 0,
            decreases n - i,
        {
            let c = &self.clauses[i];
            if c.is_empty() {
                proof {
                    assert(views(self.clauses@)[i as int] == self.clauses@[i as int]@);
                }
                return true;
            }
            i = i + 1;
        }
        false
    }

    /// Decide satisfiability of the clause set: propagate, eliminate pure
    /// literals, test the two terminal shapes, then branch on a literal with
    /// backtracking. The clause set is left propagated and eliminated.
    pub fn dpll(&mut self) -> (r: bool)
        ensures
            r == dpll_spec(views(old(self).clauses@), DPLL_FUEL as nat),
            views(final(self).clauses@) == pure_elim_spec(propagate_spec(views(old(self).clauses@))),
    {
        self.dpll_fueled(DPLL_FUEL)
    }

    fn dpll_fueled(&mut self, fuel: u64) -> (r: bool)
        ensures
            r == dpll_spec(views(old(self).clauses@), fuel as nat),
            views(final(self).clauses@) == pure_elim_spec(propagate_spec(views(old(self).clauses@))),
        decreases fuel,
    {
        self.unit_propagation();
        self.pure_literal_elimination();
        if self.clauses.len() == 0 {
            return true;
        }
        if self.has_empty_clause() {
            return false;
        }
        if fuel == 0 {
            return false;
        }
        proof {
            assert(views(self.clauses@)[0].len() != 0);
        }
        let unit = self.choose_literal();
        let mut negative_branch = self.with_unit_clause(unit.not());
        if negative_branch.dpll_fueled(fuel - 1) {
            return true;
        }
        let mut positive_branch = self.with_unit_clause(unit);
        positive_branch.dpll_fueled(fuel - 1)
    }
}

proof fn lemma_all_lits_push(pre: Seq<Seq<Literal>>, c: Seq<Literal>, l: Literal)
    ensures
        all_lits(pre.push(c)).contains(l) == (all_lits(pre).contains(l) || c.contains(l)),
{
    assert(pre.push(c).drop_last() =~= pre);
    assert(all_lits(pre.push(c)) == all_lits(pre) + c);
    if all_lits(pre).contains(l) {
        let i = choose|i: int| 0 <= i < all_lits(pre).len() && all_lits(pre)[i] == l;
        assert((all_lits(pre) + c)[i] == l);
    }
    if c.contains(l) {
        let i = choose|i: int| 0 <= i < c.len() && c[i] == l;
        assert((all_lits(pre) + c)[all_lits(pre).len() + i] == l);
    }
}

} // verus!
