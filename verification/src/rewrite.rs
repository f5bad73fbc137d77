use vstd::prelude::*;
use std::rc::Rc;
use crate::ast::{eval, ASTNode, Ident, AST};

verus! {

/// Why a rewrite rule did not produce a new formula.
#[derive(Debug)]
pub enum RewriteError {
    RuleDoesNotApply,
}

/// The mathematical content of a rule: its pattern and its replacement.
pub type RulePair = (ASTNode, ASTNode);

/// Depth bound for one bottom-up rewriting pass. A pass recurses into the
/// children of freshly rewritten nodes, so its depth is not bounded by the
/// input alone; the bound is far beyond any formula that fits in memory.
pub const REWRITE_FUEL: u64 = 0xffff_ffff_ffff_ffff;

/// Bound on the number of passes the fixpoint driver runs. Arbitrary rulesets
/// need not reach a fixpoint at all, so the driver is bounded defensively.
pub const HULL_FUEL: u64 = 0xffff_ffff_ffff_ffff;

/// One rewrite rule: a pattern whose variables bind arbitrary subformulas, and
/// a replacement built from those bindings.
pub struct RewriteRule {
    pub name: &'static str,
    pub top: AST,
    pub bot: AST,
}

/// An ordered collection of rules applied together in one pass.
pub struct RewriteRuleset {
    pub name: &'static str,
    pub rules: Vec<RewriteRule>,
}

/// The pattern/replacement pairs of a rule sequence; rewriting depends on
/// nothing else of the rules.
pub open spec fn rule_pairs(rules: Seq<RewriteRule>) -> Seq<RulePair> {
    rules.map_values(|r: RewriteRule| (*r.top, *r.bot))
}

/// The pattern variables occurring in a pattern or replacement template.
pub open spec fn pattern_vars(t: ASTNode) -> Set<Ident>
    decreases t,
{
    match t {
        ASTNode::Variable(id) => set![id],
        ASTNode::Not(p) => pattern_vars(*p),
        ASTNode::And(p, q) => pattern_vars(*p).union(pattern_vars(*q)),
        ASTNode::Or(p, q) => pattern_vars(*p).union(pattern_vars(*q)),
    }
}

/// Each pattern variable occurs at most once in the pattern, so that a match
/// never rebinds one.
pub open spec fn linear(p: ASTNode) -> bool
    decreases p,
{
    match p {
        ASTNode::Variable(_) => true,
        ASTNode::Not(q) => linear(*q),
        ASTNode::And(a, b) => linear(*a) && linear(*b) && pattern_vars(*a).disjoint(
            pattern_vars(*b),
        ),
        ASTNode::Or(a, b) => linear(*a) && linear(*b) && pattern_vars(*a).disjoint(
            pattern_vars(*b),
        ),
    }
}

/// A rule is sound when its pattern is linear and pattern and replacement
/// share a truth table over the pattern variables.
pub open spec fn pair_sound(pair: RulePair) -> bool {
    linear(pair.0) && forall|b: spec_fn(Ident) -> bool| #[trigger]
        eval(pair.0, b) == eval(pair.1, b)
}

/// Every rule of the sequence is sound.
pub open spec fn pairs_sound(pairs: Seq<RulePair>) -> bool {
    forall|i: int| 0 <= i < pairs.len() ==> pair_sound(#[trigger] pairs[i])
}

/// Root-level match of a pattern against a target. A pattern variable binds
/// the whole target subtree; on a duplicate pattern variable the right-hand
/// side's binding overwrites the left's.
pub open spec fn match_spec(pattern: ASTNode, target: ASTNode) -> Option<Map<Ident, ASTNode>>
    decreases pattern,
{
    match pattern {
        ASTNode::Variable(id) => Some(map![id => target]),
        ASTNode::Not(p) => match target {
            ASTNode::Not(t) => match_spec(*p, *t),
            _ => None,
        },
        ASTNode::And(p1, p2) => match target {
            ASTNode::And(t1, t2) => match (match_spec(*p1, *t1), match_spec(*p2, *t2)) {
                (Some(m1), Some(m2)) => Some(m1.union_prefer_right(m2)),
                _ => None,
            },
            _ => None,
        },
        ASTNode::Or(p1, p2) => match target {
            ASTNode::Or(t1, t2) => match (match_spec(*p1, *t1), match_spec(*p2, *t2)) {
                (Some(m1), Some(m2)) => Some(m1.union_prefer_right(m2)),
                _ => None,
            },
            _ => None,
        },
    }
}

/// Rebuild a replacement template, substituting each bound pattern variable by
/// its binding. An unbound variable is left as it stands; the executable code
/// requires every variable to be bound.
pub open spec fn subst_spec(template: ASTNode, m: Map<Ident, ASTNode>) -> ASTNode
    decreases template,
{
    match template {
        ASTNode::Variable(id) => if m.dom().contains(id) {
            m[id]
        } else {
            template
        },
        ASTNode::Not(p) => ASTNode::Not(Rc::new(subst_spec(*p, m))),
        ASTNode::And(p, q) => ASTNode::And(
            Rc::new(subst_spec(*p, m)),
            Rc::new(subst_spec(*q, m)),
        ),
        ASTNode::Or(p, q) => ASTNode::Or(
            Rc::new(subst_spec(*p, m)),
            Rc::new(subst_spec(*q, m)),
        ),
    }
}

/// Apply one rule at the root: the substituted replacement on a match, the
/// target unchanged otherwise.
pub open spec fn rule_apply(pair: RulePair, target: ASTNode) -> ASTNode {
    match match_spec(pair.0, target) {
        Some(m) => subst_spec(pair.1, m),
        None => target,
    }
}

/// Apply each rule in order at the root, feeding each rule's output to the
/// next.
pub open spec fn pass_spec(pairs: Seq<RulePair>, target: ASTNode) -> ASTNode
    decreases pairs.len(),
{
    if pairs.len() == 0 {
        target
    } else {
        pass_spec(pairs.drop_first(), rule_apply(pairs[0], target))
    }
}

/// One bottom-up pass: rewrite the root first, then recurse into the children
/// of the possibly new node. `fuel` bounds the recursion depth.
pub open spec fn rewrite_rec_spec(pairs: Seq<RulePair>, target: ASTNode, fuel: nat) -> ASTNode
    decreases fuel,
{
    let t = pass_spec(pairs, target);
    if fuel == 0 {
        t
    } else {
        match t {
            ASTNode::Variable(_) => t,
            ASTNode::Not(p) => ASTNode::Not(Rc::new(rewrite_rec_spec(pairs, *p, (fuel - 1) as nat))),
            ASTNode::And(p, q) => ASTNode::And(
                Rc::new(rewrite_rec_spec(pairs, *p, (fuel - 1) as nat)),
                Rc::new(rewrite_rec_spec(pairs, *q, (fuel - 1) as nat)),
            ),
            ASTNode::Or(p, q) => ASTNode::Or(
                Rc::new(rewrite_rec_spec(pairs, *p, (fuel - 1) as nat)),
                Rc::new(rewrite_rec_spec(pairs, *q, (fuel - 1) as nat)),
            ),
        }
    }
}

/// No rule of the sequence matches the root of `t`.
pub open spec fn root_irreducible(pairs: Seq<RulePair>, t: ASTNode) -> bool {
    forall|i: int| 0 <= i < pairs.len() ==> match_spec(#[trigger] pairs[i].0, t) is None
}

/// No rule of the sequence matches any subterm of `t`.
pub open spec fn irreducible(pairs: Seq<RulePair>, t: ASTNode) -> bool
    decreases t,
{
    root_irreducible(pairs, t) && match t {
        ASTNode::Variable(_) => true,
        ASTNode::Not(p) => irreducible(pairs, *p),
        ASTNode::And(p, q) => irreducible(pairs, *p) && irreducible(pairs, *q),
        ASTNode::Or(p, q) => irreducible(pairs, *p) && irreducible(pairs, *q),
    }
}

/// Repeat bottom-up passes until no rule matches anywhere, or the pass bound
/// runs out.
pub open spec fn hull_spec(pairs: Seq<RulePair>, t: ASTNode, rec_fuel: nat, fuel: nat) -> ASTNode
    decreases fuel,
{
    if irreducible(pairs, t) {
        t
    } else if fuel == 0 {
        t
    } else {
        hull_spec(pairs, rewrite_rec_spec(pairs, t, rec_fuel), rec_fuel, (fuel - 1) as nat)
    }
}

/// Whether the fixpoint driver reaches an irreducible formula within its pass
/// bound.
pub open spec fn hull_reaches(pairs: Seq<RulePair>, t: ASTNode, rec_fuel: nat, fuel: nat) -> bool
    decreases fuel,
{
    if irreducible(pairs, t) {
        true
    } else if fuel == 0 {
        false
    } else {
        hull_reaches(pairs, rewrite_rec_spec(pairs, t, rec_fuel), rec_fuel, (fuel - 1) as nat)
    }
}

/// The formula a shared handle stands for.
pub open spec fn node_of(a: &AST) -> ASTNode {
    **a
}

/// The bindings collected so far, later entries overwriting earlier ones.
pub open spec fn binding_map(s: Seq<(Ident, AST)>) -> Map<Ident, ASTNode>
    decreases s.len(),
{
    if s.len() == 0 {
        Map::empty()
    } else {
        binding_map(s.drop_last()).insert(s.last().0, *s.last().1)
    }
}

proof fn lemma_binding_map_concat(s1: Seq<(Ident, AST)>, s2: Seq<(Ident, AST)>)
    ensures
        binding_map(s1 + s2) == binding_map(s1).union_prefer_right(binding_map(s2)),
    decreases s2.len(),
{
    if s2.len() == 0 {
        assert(s1 + s2 =~= s1);
        assert(binding_map(s1).union_prefer_right(binding_map(s2)) =~= binding_map(s1));
    } else {
        lemma_binding_map_concat(s1, s2.drop_last());
        assert((s1 + s2).drop_last() =~= s1 + s2.drop_last());
        assert(binding_map(s1 + s2) == binding_map(s1 + s2.drop_last()).insert(
            s2.last().0,
            *s2.last().1,
        ));
        assert(binding_map(s1).union_prefer_right(binding_map(s2.drop_last())).insert(
            s2.last().0,
            *s2.last().1,
        ) =~= binding_map(s1).union_prefer_right(binding_map(s2)));
    }
}

/// Relies on std's Rc::clone: cloning a shared handle yields a handle to the
/// same formula.
#[verifier::external_body]
pub fn share(a: &AST) -> (r: AST)
    ensures
        *r == **a,
{
    a.clone()
}

impl RewriteRule {
    /// Every variable of the replacement is bound by the pattern, so that
    /// substitution after a successful match is total.
    pub open spec fn wf(self) -> bool {
        pattern_vars(*self.bot).subset_of(pattern_vars(*self.top))
    }

    /// Root-level match of `self`'s pattern against the whole target; on
    /// failure the target is returned unchanged.
    pub fn rewrite(&self, target: AST) -> (r: AST)
        requires
            self.wf(),
        ensures
            *r == rule_apply((*self.top, *self.bot), *target),
    {
        let matching = match Self::matching(&target, &self.top) {
            Ok(m) => m,
            Err(_) => {
                return target;
            },
        };
        proof {
            lemma_match_spec_dom(&*self.top, &*target);
        }
        Self::substitute(share(&self.bot), &matching)
    }

    /// Structural match of `pattern` against `target`, collecting bindings;
    /// on conflicting bindings of one pattern variable the right-hand match
    /// wins.
    fn matching(target: &AST, pattern: &AST) -> (r: Result<Vec<(Ident, AST)>, RewriteError>)
        ensures
            r matches Ok(m) ==> match_spec(**pattern, **target) == Some(binding_map(m@)),
            r is Err <==> match_spec(**pattern, **target) is None,
        decreases **pattern,
    {
        match (&**pattern, &**target) {
            (ASTNode::Not(template_p), ASTNode::Not(p)) => Self::matching(p, template_p),
            (ASTNode::And(template_p1, template_p2), ASTNode::And(p1, p2)) => {
                let mut matching_p1 = Self::matching(p1, template_p1)?;
                let mut matching_p2 = Self::matching(p2, template_p2)?;
                proof {
                    lemma_binding_map_concat(matching_p1@, matching_p2@);
                }
                matching_p1.append(&mut matching_p2);
                Ok(matching_p1)
            },
            (ASTNode::Or(template_p1, template_p2), ASTNode::Or(p1, p2)) => {
                let mut matching_p1 = Self::matching(p1, template_p1)?;
                let mut matching_p2 = Self::matching(p2, template_p2)?;
                proof {
                    lemma_binding_map_concat(matching_p1@, matching_p2@);
                }
                matching_p1.append(&mut matching_p2);
                Ok(matching_p1)
            },
            (ASTNode::Variable(template_ident), _) => {
                let mut bound: Vec<(Ident, AST)> = Vec::new();
                bound.push((*template_ident, share(target)));
                proof {
                    assert(bound@.drop_last() =~= Seq::<(Ident, AST)>::empty());
                    assert(binding_map(bound@.drop_last()) =~= Map::<Ident, ASTNode>::empty());
                    assert(binding_map(bound@) =~= map![*template_ident => **target]);
                }
                Ok(bound)
            },
            _ => Err(RewriteError::RuleDoesNotApply),
        }
    }

    /// Rebuild the replacement template with every pattern variable replaced
    /// by its binding.
    fn substitute(template: AST, matching: &Vec<(Ident, AST)>) -> (r: AST)
        requires
            pattern_vars(*template).subset_of(binding_map(matching@).dom()),
        ensures
            *r == subst_spec(*template, binding_map(matching@)),
        decreases *template,
    {
        match &*template {
            ASTNode::Variable(ident) => {
                let bound = Self::lookup(matching, *ident);
                match bound {
                    Some(b) => b,
                    None => {
                        proof {
                            assert(pattern_vars(*template).contains(*ident));
                        }
                        // unreachable under the precondition
                        template
                    },
                }
            },
            ASTNode::Not(p) => Rc::new(ASTNode::Not(Self::substitute(share(p), matching))),
            ASTNode::And(p1, p2) => Rc::new(ASTNode::And(
                Self::substitute(share(p1), matching),
                Self::substitute(share(p2), matching),
            )),
            ASTNode::Or(p1, p2) => Rc::new(ASTNode::Or(
                Self::substitute(share(p1), matching),
                Self::substitute(share(p2), matching),
            )),
        }
    }

    /// The binding of `ident`, the most recently added entry winning.
    fn lookup(matching: &Vec<(Ident, AST)>, ident: Ident) -> (r: Option<AST>)
        ensures
            r is Some <==> binding_map(matching@).dom().contains(ident),
            r matches Some(b) ==> *b == binding_map(matching@)[ident],
    {
        let mut i = matching.len();
        proof {
            assert(matching@.take(matching@.len() as int) =~= matching@);
        }
        while i > 0
            invariant
                i <= matching.len(),
                binding_map(matching@).dom().contains(ident) == binding_map(
                    matching@.take(i as int),
                ).dom().contains(ident),
                binding_map(matching@.take(i as int)).dom().contains(ident)
                    ==> binding_map(matching@)[ident] == binding_map(
                    matching@.take(i as int),
                )[ident],
            decreases i,
        {
            i = i - 1;
            let entry = &matching[i];
            proof {
                assert(matching@.take(i as int + 1).drop_last() =~= matching@.take(i as int));
                assert(matching@.take(i as int + 1).last() == matching@[i as int]);
            }
            if entry.0 == ident {
                return Some(share(&entry.1));
            }
        }
        proof {
            assert(matching@.take(0) =~= Seq::<(Ident, AST)>::empty());
        }
        None
    }
}

/// A successful match binds exactly the pattern's variables.
pub proof fn lemma_match_spec_dom(pattern: &ASTNode, target: &ASTNode)
    ensures
        match_spec(*pattern, *target) matches Some(m) ==> m.dom() =~= pattern_vars(*pattern),
    decreases *pattern,
{
    match pattern {
        ASTNode::Variable(_) => {},
        ASTNode::Not(p) => {
            if let ASTNode::Not(t) = target {
                lemma_match_spec_dom(&**p, &**t);
            }
        },
        ASTNode::And(p1, p2) => {
            if let ASTNode::And(t1, t2) = target {
                lemma_match_spec_dom(&**p1, &**t1);
                lemma_match_spec_dom(&**p2, &**t2);
            }
        },
        ASTNode::Or(p1, p2) => {
            if let ASTNode::Or(t1, t2) = target {
                lemma_match_spec_dom(&**p1, &**t1);
                lemma_match_spec_dom(&**p2, &**t2);
            }
        },
    }
}

impl RewriteRuleset {
    /// Substitution stays total for every rule of the collection.
    pub open spec fn wf(self) -> bool {
        forall|i: int| 0 <= i < self.rules@.len() ==> (#[trigger] self.rules@[i]).wf()
    }

    /// One pass at the root: each rule applied in declared order.
    pub fn rewrite(&self, target: AST) -> (r: AST)
        requires
            self.wf(),
        ensures
            *r == pass_spec(rule_pairs(self.rules@), *target),
    {
        let orig: Ghost<ASTNode> = Ghost(node_of(&target));
        proof {
            assert(orig@ == *target);
        }
        let mut t = target;
        let n = self.rules.len();
        let mut i: usize = 0;
        proof {
            assert(rule_pairs(self.rules@).skip(0) =~= rule_pairs(self.rules@));
        }
        while i < n
            invariant
                self.wf(),
                n == self.rules@.len(),
                i <= n,
                pass_spec(rule_pairs(self.rules@), orig@) == pass_spec(
                    rule_pairs(self.rules@).skip(i as int),
                    *t,
                ),
            decreases n - i,
        {
            t = self.rules[i].rewrite(t);
            proof {
                assert(rule_pairs(self.rules@)[i as int] == (
                    *self.rules@[i as int].top,
                    *self.rules@[i as int].bot,
                ));
                assert(rule_pairs(self.rules@).skip(i as int).drop_first() =~= rule_pairs(
                    self.rules@,
                ).skip(i as int + 1));
                assert(rule_pairs(self.rules@).skip(i as int)[0] == rule_pairs(self.rules@)[
                    i as int
                ]);
            }
            i = i + 1;
        }
        proof {
            assert(rule_pairs(self.rules@).skip(n as int) =~= Seq::<RulePair>::empty());
        }
        t
    }

    /// One bottom-up pass over the whole formula: the root first, then the
    /// children of the possibly new node.
    pub fn rewrite_recursive(&self, target: AST) -> (r: AST)
        requires
            self.wf(),
        ensures
            *r == rewrite_rec_spec(rule_pairs(self.rules@), *target, REWRITE_FUEL as nat),
    {
        self.rewrite_recursive_fueled(target, REWRITE_FUEL)
    }

    fn rewrite_recursive_fueled(&self, target: AST, fuel: u64) -> (r: AST)
        requires
            self.wf(),
        ensures
            *r == rewrite_rec_spec(rule_pairs(self.rules@), *target, fuel as nat),
        decreases fuel,
    {
        let t = self.rewrite(target);
        if fuel == 0 {
            return t;
        }
        match &*t {
            ASTNode::Variable(_) => share(&t),
            ASTNode::Not(p) => Rc::new(ASTNode::Not(
                self.rewrite_recursive_fueled(share(p), fuel - 1),
            )),
            ASTNode::And(p1, p2) => Rc::new(ASTNode::And(
                self.rewrite_recursive_fueled(share(p1), fuel - 1),
                self.rewrite_recursive_fueled(share(p2), fuel - 1),
            )),
            ASTNode::Or(p1, p2) => Rc::new(ASTNode::Or(
                self.rewrite_recursive_fueled(share(p1), fuel - 1),
                self.rewrite_recursive_fueled(share(p2), fuel - 1),
            )),
        }
    }

    /// Whether no rule of the collection matches anywhere in the formula.
    fn applies_nowhere(&self, target: &AST) -> (r: bool)
        ensures
            r == irreducible(rule_pairs(self.rules@), **target),
        decreases **target,
    {
        let n = self.rules.len();
        let mut i: usize = 0;
        while i < n
            invariant
                n == self.rules@.len(),
                i <= n,
                forall|j: int| 0 <= j < i ==> match_spec(
                    #[trigger] rule_pairs(self.rules@)[j].0,
                    **target,
                ) is None,
            decreases n - i,
        {
            let rule = &self.rules[i];
            match RewriteRule::matching(target, &rule.top) {
                Ok(_) => {
                    proof {
                        assert(rule_pairs(self.rules@)[i as int].0 == *self.rules@[i as int].top);
                        assert(match_spec(rule_pairs(self.rules@)[i as int].0, **target) is Some);
                        assert(!root_irreducible(rule_pairs(self.rules@), **target));
                    }
                    return false;
                },
                Err(_) => {},
            }
            i = i + 1;
        }
        assert(root_irreducible(rule_pairs(self.rules@), **target));
        match &**target {
            ASTNode::Variable(_) => true,
            ASTNode::Not(p) => self.applies_nowhere(p),
            ASTNode::And(p1, p2) => {
                let left = self.applies_nowhere(p1);
                left && self.applies_nowhere(p2)
            },
            ASTNode::Or(p1, p2) => {
                let left = self.applies_nowhere(p1);
                left && self.applies_nowhere(p2)
            },
        }
    }

    /// Repeat bottom-up passes until no rule matches anywhere in the formula,
    /// with a defensive bound on the number of passes for rulesets that never
    /// stabilize.
    #[verifier::loop_isolation(false)]
    pub fn rewrite_recursive_hull(&self, target: AST) -> (r: AST)
        requires
            self.wf(),
        ensures
            *r == hull_spec(
                rule_pairs(self.rules@),
                *target,
                REWRITE_FUEL as nat,
                HULL_FUEL as nat,
            ),
            hull_reaches(rule_pairs(self.rules@), *target, REWRITE_FUEL as nat, HULL_FUEL as nat)
                ==> irreducible(rule_pairs(self.rules@), *r),
            irreducible(rule_pairs(self.rules@), *target) ==> *r == *target,
    {
        let orig: Ghost<ASTNode> = Ghost(node_of(&target));
        proof {
            assert(orig@ == *target);
        }
        let mut t = target;
        let mut fuel: u64 = HULL_FUEL;
        loop
            invariant
                self.wf(),
                hull_spec(rule_pairs(self.rules@), orig@, REWRITE_FUEL as nat, HULL_FUEL as nat)
                    == hull_spec(rule_pairs(self.rules@), *t, REWRITE_FUEL as nat, fuel as nat),
                hull_reaches(rule_pairs(self.rules@), orig@, REWRITE_FUEL as nat, HULL_FUEL as nat)
                    == hull_reaches(rule_pairs(self.rules@), *t, REWRITE_FUEL as nat, fuel as nat),
            decreases fuel,
        {
            if self.applies_nowhere(&t) {
                return t;
            }
            if fuel == 0 {
                return t;
            }
            t = self.rewrite_recursive(t);
            fuel = fuel - 1;
        }
    }
}

/// A shared variable node, in specifications.
pub open spec fn s_var(id: Ident) -> AST {
    Rc::new(ASTNode::Variable(id))
}

/// A shared negation node, in specifications.
pub open spec fn s_not(p: AST) -> AST {
    Rc::new(ASTNode::Not(p))
}

/// A shared conjunction node, in specifications.
pub open spec fn s_and(p: AST, q: AST) -> AST {
    Rc::new(ASTNode::And(p, q))
}

/// A shared disjunction node, in specifications.
pub open spec fn s_or(p: AST, q: AST) -> AST {
    Rc::new(ASTNode::Or(p, q))
}

/// Double negation elimination.
pub open spec fn double_negation_pair() -> RulePair {
    (*s_not(s_not(s_var(0))), *s_var(0))
}

/// De Morgan's theorem for disjunction.
pub open spec fn de_morgan_or_pair() -> RulePair {
    (*s_not(s_or(s_var(0), s_var(1))), *s_and(s_not(s_var(0)), s_not(s_var(1))))
}

/// De Morgan's theorem for conjunction.
pub open spec fn de_morgan_and_pair() -> RulePair {
    (*s_not(s_and(s_var(0), s_var(1))), *s_or(s_not(s_var(0)), s_not(s_var(1))))
}

/// Left-distributivity of disjunction over conjunction.
pub open spec fn distribute_or_pair() -> RulePair {
    (
        *s_or(s_var(0), s_and(s_var(1), s_var(2))),
        *s_and(s_or(s_var(0), s_var(1)), s_or(s_var(0), s_var(2))),
    )
}

/// Left-distributivity of conjunction over disjunction.
pub open spec fn distribute_and_pair() -> RulePair {
    (
        *s_and(s_var(0), s_or(s_var(1), s_var(2))),
        *s_or(s_and(s_var(0), s_var(1)), s_and(s_var(0), s_var(2))),
    )
}

/// The rule pairs driving conversion to conjunctive normal form.
pub open spec fn cnf_pairs() -> Seq<RulePair> {
    seq![double_negation_pair(), de_morgan_or_pair(), de_morgan_and_pair(), distribute_or_pair()]
}

/// The rule pairs driving conversion to disjunctive normal form.
pub open spec fn dnf_pairs() -> Seq<RulePair> {
    seq![double_negation_pair(), de_morgan_or_pair(), de_morgan_and_pair(), distribute_and_pair()]
}

/// Conjunctive normal form of a formula: repeated bottom-up passes of the
/// four conversion rules, up to the defensive bounds.
pub open spec fn to_cnf_spec(f: ASTNode) -> ASTNode {
    hull_spec(cnf_pairs(), f, REWRITE_FUEL as nat, HULL_FUEL as nat)
}

/// Disjunctive normal form of a formula.
pub open spec fn to_dnf_spec(f: ASTNode) -> ASTNode {
    hull_spec(dnf_pairs(), f, REWRITE_FUEL as nat, HULL_FUEL as nat)
}

fn exec_var(id: Ident) -> (r: AST)
    ensures
        r == s_var(id),
{
    Rc::new(ASTNode::Variable(id))
}

fn exec_not(p: AST) -> (r: AST)
    ensures
        r == s_not(p),
{
    Rc::new(ASTNode::Not(p))
}

fn exec_and(p: AST, q: AST) -> (r: AST)
    ensures
        r == s_and(p, q),
{
    Rc::new(ASTNode::And(p, q))
}

fn exec_or(p: AST, q: AST) -> (r: AST)
    ensures
        r == s_or(p, q),
{
    Rc::new(ASTNode::Or(p, q))
}

fn double_negation_rule() -> (r: RewriteRule)
    ensures
        (*r.top, *r.bot) == double_negation_pair(),
        r.wf(),
{
    let r = RewriteRule {
        name: "double negation elimination",
        top: exec_not(exec_not(exec_var(0))),
        bot: exec_var(0),
    };
    proof {
        reveal_with_fuel(pattern_vars, 5);
        assert(pattern_vars(*r.bot) =~= set![0u32]);
        assert(pattern_vars(*r.top) =~= set![0u32]);
    }
    r
}

fn de_morgan_or_rule() -> (r: RewriteRule)
    ensures
        (*r.top, *r.bot) == de_morgan_or_pair(),
        r.wf(),
{
    let r = RewriteRule {
        name: "de morgan's theorem for disjunction",
        top: exec_not(exec_or(exec_var(0), exec_var(1))),
        bot: exec_and(exec_not(exec_var(0)), exec_not(exec_var(1))),
    };
    proof {
        reveal_with_fuel(pattern_vars, 5);
        assert(pattern_vars(*r.bot) =~= set![0u32, 1u32]);
        assert(pattern_vars(*r.top) =~= set![0u32, 1u32]);
    }
    r
}

fn de_morgan_and_rule() -> (r: RewriteRule)
    ensures
        (*r.top, *r.bot) == de_morgan_and_pair(),
        r.wf(),
{
    let r = RewriteRule {
        name: "de morgan's theorem for conjunction",
        top: exec_not(exec_and(exec_var(0), exec_var(1))),
        bot: exec_or(exec_not(exec_var(0)), exec_not(exec_var(1))),
    };
    proof {
        reveal_with_fuel(pattern_vars, 5);
        assert(pattern_vars(*r.bot) =~= set![0u32, 1u32]);
        assert(pattern_vars(*r.top) =~= set![0u32, 1u32]);
    }
    r
}

fn distribute_or_rule() -> (r: RewriteRule)
    ensures
        (*r.top, *r.bot) == distribute_or_pair(),
        r.wf(),
{
    let r = RewriteRule {
        name: "left-distributive property of disjunction over conjunction",
        top: exec_or(exec_var(0), exec_and(exec_var(1), exec_var(2))),
        bot: exec_and(exec_or(exec_var(0), exec_var(1)), exec_or(exec_var(0), exec_var(2))),
    };
    proof {
        reveal_with_fuel(pattern_vars, 5);
        assert(pattern_vars(*r.bot) =~= set![0u32, 1u32, 2u32]);
        assert(pattern_vars(*r.top) =~= set![0u32, 1u32, 2u32]);
    }
    r
}

fn distribute_and_rule() -> (r: RewriteRule)
    ensures
        (*r.top, *r.bot) == distribute_and_pair(),
        r.wf(),
{
    let r = RewriteRule {
        name: "left-distributive property of conjunction over disjunction",
        top: exec_and(exec_var(0), exec_or(exec_var(1), exec_var(2))),
        bot: exec_or(exec_and(exec_var(0), exec_var(1)), exec_and(exec_var(0), exec_var(2))),
    };
    proof {
        reveal_with_fuel(pattern_vars, 5);
        assert(pattern_vars(*r.bot) =~= set![0u32, 1u32, 2u32]);
        assert(pattern_vars(*r.top) =~= set![0u32, 1u32, 2u32]);
    }
    r
}

impl RewriteRuleset {
    /// The ruleset converting a formula to conjunctive normal form.
    pub fn cnf_conversion() -> (r: RewriteRuleset)
        ensures
            rule_pairs(r.rules@) == cnf_pairs(),
            r.wf(),
    {
        let rules = vec![
            double_negation_rule(),
            de_morgan_or_rule(),
            de_morgan_and_rule(),
            distribute_or_rule(),
        ];
        let r = RewriteRuleset { name: "CNF conversion", rules };
        proof {
            assert(rule_pairs(r.rules@) =~= cnf_pairs());
        }
        r
    }

    /// The ruleset converting a formula to disjunctive normal form.
    pub fn dnf_conversion() -> (r: RewriteRuleset)
        ensures
            rule_pairs(r.rules@) == dnf_pairs(),
            r.wf(),
    {
        let rules = vec![
            double_negation_rule(),
            de_morgan_or_rule(),
            de_morgan_and_rule(),
            distribute_and_rule(),
        ];
        let r = RewriteRuleset { name: "DNF conversion", rules };
        proof {
            assert(rule_pairs(r.rules@) =~= dnf_pairs());
        }
        r
    }
}

} // verus!
