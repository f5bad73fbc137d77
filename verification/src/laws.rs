use vstd::prelude::*;
use crate::ast::{eval, satisfiable_formula, ASTNode, Ident};
use crate::rewrite::{
    cnf_pairs, dnf_pairs, hull_reaches, hull_spec, irreducible, linear, match_spec, pair_sound,
    pairs_sound, pass_spec, pattern_vars, rewrite_rec_spec, rule_apply,
    subst_spec, to_cnf_spec, to_dnf_spec, RulePair, HULL_FUEL, REWRITE_FUEL,
};
use crate::rewrite::{lemma_match_spec_dom, node_of};
use crate::sat::{
    clause_has_pure, clause_sat, clause_term, clauses_of, clauses_sat, cnf_term, dedup, dpll_spec,
    drop_sat, first_unit, lemma_dedup_contains, lit_sat, lits_of, negate, propagate_spec,
    pure_elim_go, pure_elim_spec, remove_lit, satisfiable_clauses, strike, Literal,
};
use std::rc::Rc;

verus! {

/// The assignment a binding induces on pattern variables: a bound variable
/// takes the truth value of its binding, an unbound one keeps its own.
pub open spec fn induced(m: Map<Ident, ASTNode>, a: spec_fn(Ident) -> bool) -> spec_fn(
    Ident,
) -> bool {
    |id: Ident|
        if m.dom().contains(id) {
            eval(m[id], a)
        } else {
            a(id)
        }
}

/// Substitution evaluates as the template does under the induced assignment.
proof fn lemma_subst_eval(template: &ASTNode, m: Map<Ident, ASTNode>, a: spec_fn(Ident) -> bool)
    ensures
        eval(subst_spec(*template, m), a) == eval(*template, induced(m, a)),
    decreases *template,
{
    match template {
        ASTNode::Variable(_) => {},
        ASTNode::Not(p) => {
            lemma_subst_eval(&**p, m, a);
        },
        ASTNode::And(p, q) => {
            lemma_subst_eval(&**p, m, a);
            lemma_subst_eval(&**q, m, a);
        },
        ASTNode::Or(p, q) => {
            lemma_subst_eval(&**p, m, a);
            lemma_subst_eval(&**q, m, a);
        },
    }
}

/// Substitution depends only on the bindings of the template's variables.
proof fn lemma_subst_agree(template: &ASTNode, m1: Map<Ident, ASTNode>, m2: Map<Ident, ASTNode>)
    requires
        forall|id: Ident| #[trigger]
            pattern_vars(*template).contains(id) ==> (m1.dom().contains(id) == m2.dom().contains(
                id,
            )) && (m1.dom().contains(id) ==> m1[id] == m2[id]),
    ensures
        subst_spec(*template, m1) == subst_spec(*template, m2),
    decreases *template,
{
    match template {
        ASTNode::Variable(id) => {
            assert(pattern_vars(*template).contains(*id));
        },
        ASTNode::Not(p) => {
            assert forall|id: Ident| #[trigger] pattern_vars(**p).contains(id) implies
                pattern_vars(*template).contains(id) by {}
            lemma_subst_agree(&**p, m1, m2);
        },
        ASTNode::And(p, q) => {
            assert forall|id: Ident| #[trigger] pattern_vars(**p).contains(id) implies
                pattern_vars(*template).contains(id) by {}
            assert forall|id: Ident| #[trigger] pattern_vars(**q).contains(id) implies
                pattern_vars(*template).contains(id) by {}
            lemma_subst_agree(&**p, m1, m2);
            lemma_subst_agree(&**q, m1, m2);
        },
        ASTNode::Or(p, q) => {
            assert forall|id: Ident| #[trigger] pattern_vars(**p).contains(id) implies
                pattern_vars(*template).contains(id) by {}
            assert forall|id: Ident| #[trigger] pattern_vars(**q).contains(id) implies
                pattern_vars(*template).contains(id) by {}
            lemma_subst_agree(&**p, m1, m2);
            lemma_subst_agree(&**q, m1, m2);
        },
    }
}

/// A successful match of a linear pattern inverts substitution: substituting
/// the bindings back into the pattern rebuilds the target.
proof fn lemma_match_inverts(pattern: &ASTNode, target: &ASTNode)
    requires
        linear(*pattern),
    ensures
        match_spec(*pattern, *target) matches Some(m) ==> subst_spec(*pattern, m) == *target,
    decreases *pattern,
{
    match pattern {
        ASTNode::Variable(_) => {},
        ASTNode::Not(p) => {
            if let ASTNode::Not(t) = target {
                lemma_match_inverts(&**p, &**t);
            }
        },
        ASTNode::And(p1, p2) => {
            if let ASTNode::And(t1, t2) = target {
                lemma_match_inverts(&**p1, &**t1);
                lemma_match_inverts(&**p2, &**t2);
                lemma_match_spec_dom(&**p1, &**t1);
                lemma_match_spec_dom(&**p2, &**t2);
                if match_spec(*pattern, *target) is Some {
                    let m1 = choose|m1: Map<Ident, ASTNode>|
                        match_spec(**p1, **t1) == Some(m1);
                    let m2 = choose|m2: Map<Ident, ASTNode>|
                        match_spec(**p2, **t2) == Some(m2);
                    assert(match_spec(**p1, **t1) == Some(m1));
                    assert(match_spec(**p2, **t2) == Some(m2));
                    lemma_subst_agree(&**p1, m1.union_prefer_right(m2), m1);
                    lemma_subst_agree(&**p2, m1.union_prefer_right(m2), m2);
                }
            }
        },
        ASTNode::Or(p1, p2) => {
            if let ASTNode::Or(t1, t2) = target {
                lemma_match_inverts(&**p1, &**t1);
                lemma_match_inverts(&**p2, &**t2);
                lemma_match_spec_dom(&**p1, &**t1);
                lemma_match_spec_dom(&**p2, &**t2);
                if match_spec(*pattern, *target) is Some {
                    let m1 = choose|m1: Map<Ident, ASTNode>|
                        match_spec(**p1, **t1) == Some(m1);
                    let m2 = choose|m2: Map<Ident, ASTNode>|
                        match_spec(**p2, **t2) == Some(m2);
                    assert(match_spec(**p1, **t1) == Some(m1));
                    assert(match_spec(**p2, **t2) == Some(m2));
                    lemma_subst_agree(&**p1, m1.union_prefer_right(m2), m1);
                    lemma_subst_agree(&**p2, m1.union_prefer_right(m2), m2);
                }
            }
        },
    }
}

/// Applying a sound rule at the root preserves the truth value.
proof fn lemma_rule_apply_preserves(pair: &RulePair, a: spec_fn(Ident) -> bool)
    requires
        pair_sound(*pair),
    ensures
        forall|t: ASTNode| #[trigger] eval(rule_apply(*pair, t), a) == eval(t, a),
{
    assert forall|t: ASTNode| #[trigger] eval(rule_apply(*pair, t), a) == eval(t, a) by {
        if match_spec(pair.0, t) is Some {
            let m = choose|m: Map<Ident, ASTNode>| match_spec(pair.0, t) == Some(m);
            assert(match_spec(pair.0, t) == Some(m));
            lemma_match_inverts(&pair.0, &t);
            lemma_subst_eval(&pair.0, m, a);
            lemma_subst_eval(&pair.1, m, a);
            assert(eval(pair.0, induced(m, a)) == eval(pair.1, induced(m, a)));
        }
    }
}

/// One pass of sound rules preserves the truth value.
proof fn lemma_pass_preserves(pairs: Seq<RulePair>, a: spec_fn(Ident) -> bool)
    requires
        pairs_sound(pairs),
    ensures
        forall|t: ASTNode| #[trigger] eval(pass_spec(pairs, t), a) == eval(t, a),
    decreases pairs.len(),
{
    if pairs.len() > 0 {
        assert(pair_sound(pairs[0]));
        lemma_rule_apply_preserves(&pairs[0], a);
        assert forall|i: int| 0 <= i < pairs.drop_first().len() implies pair_sound(
            #[trigger] pairs.drop_first()[i],
        ) by {
            assert(pairs.drop_first()[i] == pairs[i + 1]);
        }
        lemma_pass_preserves(pairs.drop_first(), a);
        assert forall|t: ASTNode| #[trigger] eval(pass_spec(pairs, t), a) == eval(t, a) by {
            assert(eval(rule_apply(pairs[0], t), a) == eval(t, a));
            assert(eval(pass_spec(pairs.drop_first(), rule_apply(pairs[0], t)), a) == eval(
                rule_apply(pairs[0], t),
                a,
            ));
        }
    }
}

/// A bottom-up pass of sound rules preserves the truth value.
proof fn lemma_rec_preserves(pairs: Seq<RulePair>, fuel: nat, a: spec_fn(Ident) -> bool)
    requires
        pairs_sound(pairs),
    ensures
        forall|t: ASTNode| #[trigger] eval(rewrite_rec_spec(pairs, t, fuel), a) == eval(t, a),
    decreases fuel,
{
    lemma_pass_preserves(pairs, a);
    if fuel > 0 {
        lemma_rec_preserves(pairs, (fuel - 1) as nat, a);
    }
    assert forall|t: ASTNode| #[trigger] eval(rewrite_rec_spec(pairs, t, fuel), a) == eval(t, a) by {
        assert(eval(pass_spec(pairs, t), a) == eval(t, a));
        if fuel > 0 {
            match pass_spec(pairs, t) {
                ASTNode::Variable(_) => {},
                ASTNode::Not(p) => {
                    assert(eval(rewrite_rec_spec(pairs, *p, (fuel - 1) as nat), a) == eval(*p, a));
                },
                ASTNode::And(p, q) => {
                    assert(eval(rewrite_rec_spec(pairs, *p, (fuel - 1) as nat), a) == eval(*p, a));
                    assert(eval(rewrite_rec_spec(pairs, *q, (fuel - 1) as nat), a) == eval(*q, a));
                },
                ASTNode::Or(p, q) => {
                    assert(eval(rewrite_rec_spec(pairs, *p, (fuel - 1) as nat), a) == eval(*p, a));
                    assert(eval(rewrite_rec_spec(pairs, *q, (fuel - 1) as nat), a) == eval(*q, a));
                },
            }
        }
    }
}

/// The fixpoint driver over sound rules preserves the truth value.
proof fn lemma_hull_preserves(pairs: Seq<RulePair>, rec_fuel: nat, fuel: nat, a: spec_fn(Ident) -> bool)
    requires
        pairs_sound(pairs),
    ensures
        forall|t: ASTNode| #[trigger] eval(hull_spec(pairs, t, rec_fuel, fuel), a) == eval(t, a),
    decreases fuel,
{
    lemma_rec_preserves(pairs, rec_fuel, a);
    if fuel > 0 {
        lemma_hull_preserves(pairs, rec_fuel, (fuel - 1) as nat, a);
    }
    assert forall|t: ASTNode| #[trigger] eval(hull_spec(pairs, t, rec_fuel, fuel), a) == eval(
        t,
        a,
    ) by {
        if !irreducible(pairs, t) && fuel > 0 {
            assert(eval(rewrite_rec_spec(pairs, t, rec_fuel), a) == eval(t, a));
            assert(eval(
                hull_spec(pairs, rewrite_rec_spec(pairs, t, rec_fuel), rec_fuel, (fuel - 1) as nat),
                a,
            ) == eval(rewrite_rec_spec(pairs, t, rec_fuel), a));
        }
    }
}

/// The four conversion rules are sound: linear patterns whose replacement has
/// the same truth table.
proof fn lemma_cnf_pairs_sound()
    ensures
        pairs_sound(cnf_pairs()),
        pairs_sound(dnf_pairs()),
{
    lemma_pair_facts();
    assert forall|i: int| 0 <= i < cnf_pairs().len() implies pair_sound(
        #[trigger] cnf_pairs()[i],
    ) by {
        assert(cnf_pairs().len() == 4);
    }
    assert forall|i: int| 0 <= i < dnf_pairs().len() implies pair_sound(
        #[trigger] dnf_pairs()[i],
    ) by {
        assert(dnf_pairs().len() == 4);
    }
}

proof fn lemma_pair_facts()
    ensures
        pair_sound(crate::rewrite::double_negation_pair()),
        pair_sound(crate::rewrite::de_morgan_or_pair()),
        pair_sound(crate::rewrite::de_morgan_and_pair()),
        pair_sound(crate::rewrite::distribute_or_pair()),
        pair_sound(crate::rewrite::distribute_and_pair()),
{
    reveal_with_fuel(pattern_vars, 5);
    reveal_with_fuel(linear, 5);
    assert(pattern_vars(*crate::rewrite::s_var(0)) =~= set![0u32]);
    assert(pattern_vars(*crate::rewrite::s_var(1)) =~= set![1u32]);
    assert(pattern_vars(*crate::rewrite::s_var(2)) =~= set![2u32]);
    assert forall|b: spec_fn(Ident) -> bool| #[trigger]
        eval(crate::rewrite::double_negation_pair().0, b) == eval(
        crate::rewrite::double_negation_pair().1,
        b,
    ) by {
        reveal_with_fuel(eval, 6);
    }
    assert forall|b: spec_fn(Ident) -> bool| #[trigger]
        eval(crate::rewrite::de_morgan_or_pair().0, b) == eval(
        crate::rewrite::de_morgan_or_pair().1,
        b,
    ) by {
        reveal_with_fuel(eval, 6);
    }
    assert forall|b: spec_fn(Ident) -> bool| #[trigger]
        eval(crate::rewrite::de_morgan_and_pair().0, b) == eval(
        crate::rewrite::de_morgan_and_pair().1,
        b,
    ) by {
        reveal_with_fuel(eval, 6);
    }
    assert forall|b: spec_fn(Ident) -> bool| #[trigger]
        eval(crate::rewrite::distribute_or_pair().0, b) == eval(
        crate::rewrite::distribute_or_pair().1,
        b,
    ) by {
        reveal_with_fuel(eval, 6);
    }
    assert forall|b: spec_fn(Ident) -> bool| #[trigger]
        eval(crate::rewrite::distribute_and_pair().0, b) == eval(
        crate::rewrite::distribute_and_pair().1,
        b,
    ) by {
        reveal_with_fuel(eval, 6);
    }
}

/// Semantic preservation: a formula, its conjunctive normal form and its
/// disjunctive normal form take the same truth value under every assignment.
pub proof fn lemma_normal_forms_preserve_eval(f: ASTNode, a: spec_fn(Ident) -> bool)
    ensures
        eval(to_cnf_spec(f), a) == eval(f, a),
        eval(to_dnf_spec(f), a) == eval(f, a),
{
    lemma_cnf_pairs_sound();
    lemma_hull_preserves(cnf_pairs(), REWRITE_FUEL as nat, HULL_FUEL as nat, a);
    lemma_hull_preserves(dnf_pairs(), REWRITE_FUEL as nat, HULL_FUEL as nat, a);
}

/// Normal-form conversion keeps satisfiability.
pub proof fn lemma_normal_forms_preserve_satisfiable(f: ASTNode)
    ensures
        satisfiable_formula(to_cnf_spec(f)) == satisfiable_formula(f),
        satisfiable_formula(to_dnf_spec(f)) == satisfiable_formula(f),
{
    if satisfiable_formula(f) {
        let a = choose|a: spec_fn(Ident) -> bool| eval(f, a);
        lemma_normal_forms_preserve_eval(f, a);
        assert(eval(to_cnf_spec(f), a));
        assert(eval(to_dnf_spec(f), a));
    }
    if satisfiable_formula(to_cnf_spec(f)) {
        let a = choose|a: spec_fn(Ident) -> bool| eval(to_cnf_spec(f), a);
        lemma_normal_forms_preserve_eval(f, a);
        assert(eval(f, a));
    }
    if satisfiable_formula(to_dnf_spec(f)) {
        let a = choose|a: spec_fn(Ident) -> bool| eval(to_dnf_spec(f), a);
        lemma_normal_forms_preserve_eval(f, a);
        assert(eval(f, a));
    }
}

/// An irreducible formula is a fixed point of the fixpoint driver.
proof fn lemma_hull_irreducible_identity(pairs: Seq<RulePair>, t: ASTNode, rec_fuel: nat, fuel: nat)
    requires
        irreducible(pairs, t),
    ensures
        hull_spec(pairs, t, rec_fuel, fuel) == t,
{
}

/// When the driver reaches an irreducible formula, its result is irreducible.
proof fn lemma_hull_reaches_irreducible(pairs: Seq<RulePair>, t: ASTNode, rec_fuel: nat, fuel: nat)
    requires
        hull_reaches(pairs, t, rec_fuel, fuel),
    ensures
        irreducible(pairs, hull_spec(pairs, t, rec_fuel, fuel)),
    decreases fuel,
{
    if !irreducible(pairs, t) && fuel > 0 {
        lemma_hull_reaches_irreducible(
            pairs,
            rewrite_rec_spec(pairs, t, rec_fuel),
            rec_fuel,
            (fuel - 1) as nat,
        );
    }
}

/// Idempotence: converting to a normal form twice gives the single
/// conversion's result, whenever the driver reaches an irreducible formula
/// within its defensive pass bound.
pub proof fn lemma_normal_forms_idempotent(f: ASTNode)
    ensures
        hull_reaches(cnf_pairs(), f, REWRITE_FUEL as nat, HULL_FUEL as nat) ==> to_cnf_spec(
            to_cnf_spec(f),
        ) == to_cnf_spec(f),
        hull_reaches(dnf_pairs(), f, REWRITE_FUEL as nat, HULL_FUEL as nat) ==> to_dnf_spec(
            to_dnf_spec(f),
        ) == to_dnf_spec(f),
{
    if hull_reaches(cnf_pairs(), f, REWRITE_FUEL as nat, HULL_FUEL as nat) {
        lemma_hull_reaches_irreducible(cnf_pairs(), f, REWRITE_FUEL as nat, HULL_FUEL as nat);
        lemma_hull_irreducible_identity(
            cnf_pairs(),
            to_cnf_spec(f),
            REWRITE_FUEL as nat,
            HULL_FUEL as nat,
        );
    }
    if hull_reaches(dnf_pairs(), f, REWRITE_FUEL as nat, HULL_FUEL as nat) {
        lemma_hull_reaches_irreducible(dnf_pairs(), f, REWRITE_FUEL as nat, HULL_FUEL as nat);
        lemma_hull_irreducible_identity(
            dnf_pairs(),
            to_dnf_spec(f),
            REWRITE_FUEL as nat,
            HULL_FUEL as nat,
        );
    }
}

/// Every negation in the formula applies directly to a variable.
pub open spec fn negations_atomic(f: ASTNode) -> bool
    decreases f,
{
    match f {
        ASTNode::Variable(_) => true,
        ASTNode::Not(p) => *p is Variable,
        ASTNode::And(p, q) => negations_atomic(*p) && negations_atomic(*q),
        ASTNode::Or(p, q) => negations_atomic(*p) && negations_atomic(*q),
    }
}

/// No disjunction in the formula has a conjunction as its right operand.
pub open spec fn no_conjunction_right_of_or(f: ASTNode) -> bool
    decreases f,
{
    match f {
        ASTNode::Variable(_) => true,
        ASTNode::Not(p) => no_conjunction_right_of_or(*p),
        ASTNode::And(p, q) => no_conjunction_right_of_or(*p) && no_conjunction_right_of_or(*q),
        ASTNode::Or(p, q) => !(*q is And) && no_conjunction_right_of_or(*p)
            && no_conjunction_right_of_or(*q),
    }
}

/// Shape of the conjunctive normal form: wherever no conversion rule matches,
/// every negation stands on a bare variable and no disjunction holds a
/// conjunction to its right.
pub proof fn lemma_cnf_irreducible_shape(f: &ASTNode)
    requires
        irreducible(cnf_pairs(), *f),
    ensures
        negations_atomic(*f),
        no_conjunction_right_of_or(*f),
    decreases *f,
{
    reveal_with_fuel(match_spec, 4);
    assert(cnf_pairs()[0] == crate::rewrite::double_negation_pair());
    assert(cnf_pairs()[1] == crate::rewrite::de_morgan_or_pair());
    assert(cnf_pairs()[2] == crate::rewrite::de_morgan_and_pair());
    assert(cnf_pairs()[3] == crate::rewrite::distribute_or_pair());
    match f {
        ASTNode::Variable(_) => {},
        ASTNode::Not(p) => {
            lemma_cnf_irreducible_shape(&**p);
            if let ASTNode::Not(_) = &**p {
                assert(match_spec(cnf_pairs()[0].0, *f) is Some);
                assert(false);
            }
            if let ASTNode::Or(_, _) = &**p {
                assert(match_spec(cnf_pairs()[1].0, *f) is Some);
                assert(false);
            }
            if let ASTNode::And(_, _) = &**p {
                assert(match_spec(cnf_pairs()[2].0, *f) is Some);
                assert(false);
            }
        },
        ASTNode::And(p, q) => {
            lemma_cnf_irreducible_shape(&**p);
            lemma_cnf_irreducible_shape(&**q);
        },
        ASTNode::Or(p, q) => {
            lemma_cnf_irreducible_shape(&**p);
            lemma_cnf_irreducible_shape(&**q);
            if let ASTNode::And(_, _) = &**q {
                assert(match_spec(cnf_pairs()[3].0, *f) is Some);
                assert(false);
            }
        },
    }
}

/// Shape of the converted formula, whenever the driver reaches an
/// irreducible formula within its defensive pass bound.
pub proof fn lemma_to_cnf_shape(f: ASTNode)
    ensures
        hull_reaches(cnf_pairs(), f, REWRITE_FUEL as nat, HULL_FUEL as nat) ==> negations_atomic(
            to_cnf_spec(f),
        ) && no_conjunction_right_of_or(to_cnf_spec(f)),
{
    if hull_reaches(cnf_pairs(), f, REWRITE_FUEL as nat, HULL_FUEL as nat) {
        lemma_hull_reaches_irreducible(cnf_pairs(), f, REWRITE_FUEL as nat, HULL_FUEL as nat);
        lemma_cnf_irreducible_shape(&to_cnf_spec(f));
    }
}

/// Double negation keeps satisfiability.
pub proof fn lemma_double_negation_satisfiable(f: ASTNode)
    ensures
        satisfiable_formula(ASTNode::Not(Rc::new(ASTNode::Not(Rc::new(f))))) == satisfiable_formula(
            f,
        ),
{
    if satisfiable_formula(f) {
        let a = choose|a: spec_fn(Ident) -> bool| eval(f, a);
        assert(eval(ASTNode::Not(Rc::new(ASTNode::Not(Rc::new(f)))), a)) by {
            reveal_with_fuel(eval, 3);
        }
    }
    if satisfiable_formula(ASTNode::Not(Rc::new(ASTNode::Not(Rc::new(f))))) {
        let a = choose|a: spec_fn(Ident) -> bool|
            eval(ASTNode::Not(Rc::new(ASTNode::Not(Rc::new(f)))), a);
        assert(eval(f, a)) by {
            reveal_with_fuel(eval, 3);
        }
    }
}

/// Some clause of the set holds no literal.
pub open spec fn has_empty_clause_spec(cs: Seq<Seq<Literal>>) -> bool {
    exists|i: int| 0 <= i < cs.len() && (#[trigger] cs[i]).len() == 0
}

proof fn lemma_remove_lit_empty(l: Literal)
    ensures
        remove_lit(Seq::empty(), l) =~= Seq::<Literal>::empty(),
{
}

proof fn lemma_drop_sat_keeps_empty(cs: Seq<Seq<Literal>>, l: Literal)
    requires
        has_empty_clause_spec(cs),
    ensures
        has_empty_clause_spec(drop_sat(cs, l)),
    decreases cs.len(),
{
    let i = choose|i: int| 0 <= i < cs.len() && (#[trigger] cs[i]).len() == 0;
    if i == cs.len() - 1 {
        assert(!cs.last().contains(l));
        assert(drop_sat(cs, l).last().len() == 0);
        assert(has_empty_clause_spec(drop_sat(cs, l)));
    } else {
        assert(cs.drop_last()[i] == cs[i]);
        assert(has_empty_clause_spec(cs.drop_last()));
        lemma_drop_sat_keeps_empty(cs.drop_last(), l);
        let j = choose|j: int|
            0 <= j < drop_sat(cs.drop_last(), l).len() && (#[trigger] drop_sat(
                cs.drop_last(),
                l,
            )[j]).len() == 0;
        if cs.last().contains(l) {
            assert(drop_sat(cs, l)[j].len() == 0);
        } else {
            assert(drop_sat(cs, l)[j] == drop_sat(cs.drop_last(), l)[j]);
        }
        assert(has_empty_clause_spec(drop_sat(cs, l)));
    }
}

proof fn lemma_strike_keeps_empty(cs: Seq<Seq<Literal>>, l: Literal)
    requires
        has_empty_clause_spec(cs),
    ensures
        has_empty_clause_spec(strike(cs, l)),
    decreases cs.len(),
{
    let i = choose|i: int| 0 <= i < cs.len() && (#[trigger] cs[i]).len() == 0;
    if i == cs.len() - 1 {
        lemma_remove_lit_empty(l);
        assert(cs.last() =~= Seq::<Literal>::empty());
        assert(strike(cs, l).last().len() == 0);
        assert(has_empty_clause_spec(strike(cs, l)));
    } else {
        assert(cs.drop_last()[i] == cs[i]);
        assert(has_empty_clause_spec(cs.drop_last()));
        lemma_strike_keeps_empty(cs.drop_last(), l);
        let j = choose|j: int|
            0 <= j < strike(cs.drop_last(), l).len() && (#[trigger] strike(
                cs.drop_last(),
                l,
            )[j]).len() == 0;
        assert(strike(cs, l)[j] == strike(cs.drop_last(), l)[j]);
        assert(has_empty_clause_spec(strike(cs, l)));
    }
}

proof fn lemma_propagate_keeps_empty(cs: Seq<Seq<Literal>>)
    requires
        has_empty_clause_spec(cs),
    ensures
        has_empty_clause_spec(propagate_spec(cs)),
    decreases cs.len(),
{
    match first_unit(cs) {
        None => {},
        Some(l) => {
            crate::sat::lemma_first_unit_gives_contains(cs, l);
            crate::sat::lemma_drop_sat_shrinks(cs, l);
            crate::sat::lemma_strike_same_len(drop_sat(cs, l), negate(l));
            lemma_drop_sat_keeps_empty(cs, l);
            lemma_strike_keeps_empty(drop_sat(cs, l), negate(l));
            lemma_propagate_keeps_empty(strike(drop_sat(cs, l), negate(l)));
        },
    }
}

proof fn lemma_pure_elim_keeps_empty(all: Seq<Seq<Literal>>, cs: Seq<Seq<Literal>>)
    requires
        has_empty_clause_spec(cs),
    ensures
        has_empty_clause_spec(pure_elim_go(all, cs)),
    decreases cs.len(),
{
    let i = choose|i: int| 0 <= i < cs.len() && (#[trigger] cs[i]).len() == 0;
    if i == cs.len() - 1 {
        assert(!clause_has_pure(all, cs.last()));
        assert(pure_elim_go(all, cs).last().len() == 0);
        assert(has_empty_clause_spec(pure_elim_go(all, cs)));
    } else {
        assert(cs.drop_last()[i] == cs[i]);
        assert(has_empty_clause_spec(cs.drop_last()));
        lemma_pure_elim_keeps_empty(all, cs.drop_last());
        let j = choose|j: int|
            0 <= j < pure_elim_go(all, cs.drop_last()).len() && (#[trigger] pure_elim_go(
                all,
                cs.drop_last(),
            )[j]).len() == 0;
        if clause_has_pure(all, cs.last()) {
            assert(pure_elim_go(all, cs)[j].len() == 0);
        } else {
            assert(pure_elim_go(all, cs)[j] == pure_elim_go(all, cs.drop_last())[j]);
        }
        assert(has_empty_clause_spec(pure_elim_go(all, cs)));
    }
}

/// A clause set with no clause at all is decided satisfiable.
pub proof fn lemma_no_clauses_satisfiable(fuel: nat)
    ensures
        dpll_spec(Seq::<Seq<Literal>>::empty(), fuel),
{
    assert(propagate_spec(Seq::<Seq<Literal>>::empty()) == Seq::<Seq<Literal>>::empty());
    assert(pure_elim_spec(Seq::<Seq<Literal>>::empty()) == Seq::<Seq<Literal>>::empty());
}

/// A clause set holding an empty clause is decided unsatisfiable.
pub proof fn lemma_empty_clause_unsatisfiable(cs: Seq<Seq<Literal>>, fuel: nat)
    requires
        has_empty_clause_spec(cs),
    ensures
        !dpll_spec(cs, fuel),
{
    lemma_propagate_keeps_empty(cs);
    lemma_pure_elim_keeps_empty(propagate_spec(cs), propagate_spec(cs));
    let cs1 = pure_elim_spec(propagate_spec(cs));
    assert(has_empty_clause_spec(cs1));
    assert(cs1.len() > 0);
}

proof fn lemma_clause_sat_concat(a: spec_fn(Ident) -> bool, s1: Seq<Literal>, s2: Seq<Literal>)
    ensures
        clause_sat(a, s1 + s2) == (clause_sat(a, s1) || clause_sat(a, s2)),
{
    if clause_sat(a, s1 + s2) {
        let k = choose|k: int| 0 <= k < (s1 + s2).len() && lit_sat(a, #[trigger] (s1 + s2)[k]);
        if k < s1.len() {
            assert((s1 + s2)[k] == s1[k]);
        } else {
            assert((s1 + s2)[k] == s2[k - s1.len()]);
        }
    }
    if clause_sat(a, s1) {
        let k = choose|k: int| 0 <= k < s1.len() && lit_sat(a, #[trigger] s1[k]);
        assert((s1 + s2)[k] == s1[k]);
    }
    if clause_sat(a, s2) {
        let k = choose|k: int| 0 <= k < s2.len() && lit_sat(a, #[trigger] s2[k]);
        assert((s1 + s2)[s1.len() + k] == s2[k]);
    }
}

proof fn lemma_clause_sat_dedup(a: spec_fn(Ident) -> bool, s: Seq<Literal>)
    ensures
        clause_sat(a, dedup(s)) == clause_sat(a, s),
{
    if clause_sat(a, dedup(s)) {
        let k = choose|k: int| 0 <= k < dedup(s).len() && lit_sat(a, #[trigger] dedup(s)[k]);
        assert(dedup(s).contains(dedup(s)[k]));
        lemma_dedup_contains(s, dedup(s)[k]);
        let j = choose|j: int| 0 <= j < s.len() && s[j] == dedup(s)[k];
        assert(lit_sat(a, s[j]));
    }
    if clause_sat(a, s) {
        let k = choose|k: int| 0 <= k < s.len() && lit_sat(a, #[trigger] s[k]);
        assert(s.contains(s[k]));
        lemma_dedup_contains(s, s[k]);
        let j = choose|j: int| 0 <= j < dedup(s).len() && dedup(s)[j] == s[k];
        assert(lit_sat(a, dedup(s)[j]));
    }
}

proof fn lemma_lits_of_eval(t: &ASTNode, a: spec_fn(Ident) -> bool)
    requires
        clause_term(*t),
    ensures
        clause_sat(a, lits_of(*t)) == eval(*t, a),
    decreases *t,
{
    match t {
        ASTNode::Variable(id) => {
            assert(lits_of(*t) =~= seq![
                Literal { identifier: *id, polarity: crate::sat::Polarity::Positive },
            ]);
            assert(lit_sat(a, lits_of(*t)[0]) == a(*id));
            if eval(*t, a) {
                assert(clause_sat(a, lits_of(*t)));
            } else {
                assert forall|k: int| 0 <= k < lits_of(*t).len() implies !lit_sat(
                    a,
                    #[trigger] lits_of(*t)[k],
                ) by {
                    assert(k == 0);
                }
            }
        },
        ASTNode::Not(p) => {
            if let ASTNode::Variable(id) = &**p {
                assert(lits_of(*t) =~= seq![
                    Literal { identifier: *id, polarity: crate::sat::Polarity::Negative },
                ]);
                assert(lit_sat(a, lits_of(*t)[0]) == !a(*id));
                assert(eval(*t, a) == !a(*id)) by {
                    reveal_with_fuel(eval, 3);
                }
                if eval(*t, a) {
                    assert(clause_sat(a, lits_of(*t)));
                } else {
                    assert forall|k: int| 0 <= k < lits_of(*t).len() implies !lit_sat(
                        a,
                        #[trigger] lits_of(*t)[k],
                    ) by {
                        assert(k == 0);
                    }
                }
            }
        },
        ASTNode::Or(p, q) => {
            lemma_lits_of_eval(&**p, a);
            lemma_lits_of_eval(&**q, a);
            lemma_clause_sat_concat(a, lits_of(node_of(p)), lits_of(node_of(q)));
        },
        ASTNode::And(_, _) => {},
    }
}

proof fn lemma_clauses_sat_concat(
    a: spec_fn(Ident) -> bool,
    s1: Seq<Seq<Literal>>,
    s2: Seq<Seq<Literal>>,
)
    ensures
        clauses_sat(a, s1 + s2) == (clauses_sat(a, s1) && clauses_sat(a, s2)),
{
    if clauses_sat(a, s1 + s2) {
        assert forall|i: int| 0 <= i < s1.len() implies clause_sat(a, #[trigger] s1[i]) by {
            assert((s1 + s2)[i] == s1[i]);
            assert(clause_sat(a, (s1 + s2)[i]));
        }
        assert forall|i: int| 0 <= i < s2.len() implies clause_sat(a, #[trigger] s2[i]) by {
            assert((s1 + s2)[s1.len() + i] == s2[i]);
            assert(clause_sat(a, (s1 + s2)[s1.len() + i]));
        }
    }
    if clauses_sat(a, s1) && clauses_sat(a, s2) {
        assert forall|i: int| 0 <= i < (s1 + s2).len() implies clause_sat(
            a,
            #[trigger] (s1 + s2)[i],
        ) by {
            if i < s1.len() {
                assert((s1 + s2)[i] == s1[i]);
            } else {
                assert((s1 + s2)[i] == s2[i - s1.len()]);
            }
        }
    }
}

/// Clause extraction is faithful: the clause set of a formula in conjunctive
/// normal form is satisfied exactly when the formula is true.
pub proof fn lemma_clauses_of_eval(t: &ASTNode, a: spec_fn(Ident) -> bool)
    requires
        cnf_term(*t),
    ensures
        clauses_sat(a, clauses_of(*t)) == eval(*t, a),
    decreases *t,
{
    match t {
        ASTNode::And(p, q) => {
            lemma_clauses_of_eval(&**p, a);
            lemma_clauses_of_eval(&**q, a);
            lemma_clauses_sat_concat(a, clauses_of(node_of(p)), clauses_of(node_of(q)));
        },
        _ => {
            lemma_lits_of_eval(t, a);
            lemma_clause_sat_dedup(a, lits_of(*t));
            assert(clauses_of(*t) =~= seq![dedup(lits_of(*t))]);
            if clause_sat(a, dedup(lits_of(*t))) {
                assert forall|i: int| 0 <= i < clauses_of(*t).len() implies clause_sat(
                    a,
                    #[trigger] clauses_of(*t)[i],
                ) by {
                    assert(clauses_of(*t)[i] == dedup(lits_of(*t)));
                }
            } else {
                assert(clauses_of(*t)[0] == dedup(lits_of(*t)));
                assert(!clauses_sat(a, clauses_of(*t)));
            }
        },
    }
}

/// The clause set handed to the solver is satisfiable exactly when the
/// formula it came from is.
pub proof fn lemma_pipeline_preserves_satisfiability(f: ASTNode)
    requires
        cnf_term(to_cnf_spec(f)),
    ensures
        satisfiable_clauses(clauses_of(to_cnf_spec(f))) == satisfiable_formula(f),
{
    if satisfiable_formula(f) {
        let a = choose|a: spec_fn(Ident) -> bool| eval(f, a);
        lemma_normal_forms_preserve_eval(f, a);
        lemma_clauses_of_eval(&to_cnf_spec(f), a);
        assert(clauses_sat(a, clauses_of(to_cnf_spec(f))));
    }
    if satisfiable_clauses(clauses_of(to_cnf_spec(f))) {
        let a = choose|a: spec_fn(Ident) -> bool| clauses_sat(a, clauses_of(to_cnf_spec(f)));
        lemma_clauses_of_eval(&to_cnf_spec(f), a);
        lemma_normal_forms_preserve_eval(f, a);
        assert(eval(f, a));
    }
}


/// The conjunction of a variable with its own negation.
pub open spec fn contradiction_formula(v: Ident) -> ASTNode {
    ASTNode::And(
        Rc::new(ASTNode::Variable(v)),
        Rc::new(ASTNode::Not(Rc::new(ASTNode::Variable(v)))),
    )
}

/// The disjunction of a variable with its own negation.
pub open spec fn excluded_middle_formula(v: Ident) -> ASTNode {
    ASTNode::Or(
        Rc::new(ASTNode::Variable(v)),
        Rc::new(ASTNode::Not(Rc::new(ASTNode::Variable(v)))),
    )
}

proof fn lemma_literal_nodes_irreducible(v: Ident)
    ensures
        irreducible(cnf_pairs(), ASTNode::Variable(v)),
        irreducible(cnf_pairs(), ASTNode::Not(Rc::new(ASTNode::Variable(v)))),
        irreducible(cnf_pairs(), contradiction_formula(v)),
        irreducible(cnf_pairs(), excluded_middle_formula(v)),
{
    reveal_with_fuel(match_spec, 5);
    assert(cnf_pairs()[0] == crate::rewrite::double_negation_pair());
    assert(cnf_pairs()[1] == crate::rewrite::de_morgan_or_pair());
    assert(cnf_pairs()[2] == crate::rewrite::de_morgan_and_pair());
    assert(cnf_pairs()[3] == crate::rewrite::distribute_or_pair());
    assert forall|i: int| 0 <= i < cnf_pairs().len() implies match_spec(
        #[trigger] cnf_pairs()[i].0,
        ASTNode::Variable(v),
    ) is None by {
        assert(cnf_pairs().len() == 4);
    }
    assert forall|i: int| 0 <= i < cnf_pairs().len() implies match_spec(
        #[trigger] cnf_pairs()[i].0,
        ASTNode::Not(Rc::new(ASTNode::Variable(v))),
    ) is None by {
        assert(cnf_pairs().len() == 4);
    }
    assert forall|i: int| 0 <= i < cnf_pairs().len() implies match_spec(
        #[trigger] cnf_pairs()[i].0,
        contradiction_formula(v),
    ) is None by {
        assert(cnf_pairs().len() == 4);
    }
    assert forall|i: int| 0 <= i < cnf_pairs().len() implies match_spec(
        #[trigger] cnf_pairs()[i].0,
        excluded_middle_formula(v),
    ) is None by {
        assert(cnf_pairs().len() == 4);
    }
}

/// The positive literal of a variable.
pub open spec fn positive_literal(v: Ident) -> Literal {
    Literal { identifier: v, polarity: crate::sat::Polarity::Positive }
}

/// The negative literal of a variable.
pub open spec fn negative_literal(v: Ident) -> Literal {
    Literal { identifier: v, polarity: crate::sat::Polarity::Negative }
}

/// A variable conjoined with its own negation is decided unsatisfiable,
/// whatever the variable.
pub proof fn lemma_contradiction_unsatisfiable(v: Ident)
    ensures
        !crate::sat::sat_spec(contradiction_formula(v)),
{
    lemma_literal_nodes_irreducible(v);
    lemma_hull_irreducible_identity(
        cnf_pairs(),
        contradiction_formula(v),
        REWRITE_FUEL as nat,
        HULL_FUEL as nat,
    );
    let f = contradiction_formula(v);
    assert(to_cnf_spec(f) == f);
    let pos = positive_literal(v);
    let neg = negative_literal(v);
    assert(negate(pos) == neg);
    assert(lits_of(ASTNode::Variable(v)) =~= seq![pos]);
    assert(lits_of(ASTNode::Not(Rc::new(ASTNode::Variable(v)))) =~= seq![neg]) by {
        reveal_with_fuel(lits_of, 3);
    }
    assert(dedup(seq![pos]) =~= seq![pos]) by {
        assert(seq![pos].drop_last() =~= Seq::<Literal>::empty());
        assert(dedup(Seq::<Literal>::empty()) =~= Seq::<Literal>::empty());
    }
    assert(dedup(seq![neg]) =~= seq![neg]) by {
        assert(seq![neg].drop_last() =~= Seq::<Literal>::empty());
        assert(dedup(Seq::<Literal>::empty()) =~= Seq::<Literal>::empty());
    }
    assert(clauses_of(ASTNode::Variable(v)) =~= seq![seq![pos]]);
    assert(clauses_of(ASTNode::Not(Rc::new(ASTNode::Variable(v)))) =~= seq![seq![neg]]);
    let cs = clauses_of(f);
    assert(cs =~= seq![seq![pos], seq![neg]]);
    assert(has_empty_clause_spec(propagate_spec(cs))) by {
        assert(first_unit(cs) == Some(pos));
        let after_drop = drop_sat(cs, pos);
        assert(cs.drop_last() =~= seq![seq![pos]]);
        assert(cs.last() =~= seq![neg]);
        assert(!seq![neg].contains(pos)) by {
            assert(forall|k: int| 0 <= k < 1 ==> seq![neg][k] == neg);
        }
        assert(seq![seq![pos]].drop_last() =~= Seq::<Seq<Literal>>::empty());
        assert(seq![seq![pos]].last() =~= seq![pos]);
        assert(seq![pos].contains(pos)) by {
            assert(seq![pos][0] == pos);
        }
        assert(drop_sat(Seq::<Seq<Literal>>::empty(), pos) =~= Seq::<Seq<Literal>>::empty());
        assert(drop_sat(seq![seq![pos]], pos) =~= Seq::<Seq<Literal>>::empty());
        assert(after_drop =~= seq![seq![neg]]);
        let after_strike = strike(after_drop, neg);
        assert(remove_lit(seq![neg], neg) =~= Seq::<Literal>::empty()) by {
            assert(seq![neg].drop_last() =~= Seq::<Literal>::empty());
            assert(remove_lit(Seq::<Literal>::empty(), neg) =~= Seq::<Literal>::empty());
        }
        assert(seq![seq![neg]].drop_last() =~= Seq::<Seq<Literal>>::empty());
        assert(seq![seq![neg]].last() =~= seq![neg]);
        assert(strike(Seq::<Seq<Literal>>::empty(), neg) =~= Seq::<Seq<Literal>>::empty());
        assert(after_strike =~= seq![Seq::<Literal>::empty()]);
        assert(first_unit(after_strike) is None) by {
            assert(after_strike[0].len() == 0);
            assert(after_strike.drop_first() =~= Seq::<Seq<Literal>>::empty());
            assert(first_unit(Seq::<Seq<Literal>>::empty()) is None);
        }
        assert(propagate_spec(after_strike) == after_strike);
        assert(propagate_spec(cs) == after_strike);
        assert(after_strike[0].len() == 0);
    }
    lemma_pure_elim_keeps_empty(propagate_spec(cs), propagate_spec(cs));
    let cs1 = pure_elim_spec(propagate_spec(cs));
    assert(has_empty_clause_spec(cs1));
    assert(cs1.len() > 0);
    assert(!dpll_spec(cs, crate::sat::DPLL_FUEL as nat));
}

/// A variable disjoined with its own negation is decided satisfiable,
/// whatever the variable.
pub proof fn lemma_excluded_middle_satisfiable(v: Ident)
    ensures
        crate::sat::sat_spec(excluded_middle_formula(v)),
{
    lemma_literal_nodes_irreducible(v);
    lemma_hull_irreducible_identity(
        cnf_pairs(),
        excluded_middle_formula(v),
        REWRITE_FUEL as nat,
        HULL_FUEL as nat,
    );
    let f = excluded_middle_formula(v);
    assert(to_cnf_spec(f) == f);
    let pos = positive_literal(v);
    let neg = negative_literal(v);
    assert(negate(pos) == neg && negate(neg) == pos);
    assert(lits_of(f) =~= seq![pos, neg]) by {
        reveal_with_fuel(lits_of, 3);
        assert(lits_of(ASTNode::Variable(v)) =~= seq![pos]);
        assert(lits_of(ASTNode::Not(Rc::new(ASTNode::Variable(v)))) =~= seq![neg]);
    }
    let c = seq![pos, neg];
    assert(dedup(c) =~= c) by {
        assert(c.drop_last() =~= seq![pos]);
        assert(!seq![pos].contains(neg)) by {
            assert(forall|k: int| 0 <= k < 1 ==> seq![pos][k] == pos);
        }
        assert(dedup(seq![pos]) =~= seq![pos]) by {
            assert(seq![pos].drop_last() =~= Seq::<Literal>::empty());
            assert(dedup(Seq::<Literal>::empty()) =~= Seq::<Literal>::empty());
        }
    }
    let cs = seq![c];
    assert(clauses_of(f) =~= cs);
    assert(propagate_spec(cs) == cs) by {
        assert(cs[0].len() == 2);
        assert(cs.drop_first() =~= Seq::<Seq<Literal>>::empty());
        assert(first_unit(cs) is None);
    }
    assert(pure_elim_spec(cs) == cs) by {
        assert(crate::sat::all_lits(cs) =~= c) by {
            assert(cs.drop_last() =~= Seq::<Seq<Literal>>::empty());
            assert(crate::sat::all_lits(Seq::<Seq<Literal>>::empty()) =~= Seq::<
                Literal,
            >::empty());
        }
        assert(c.contains(pos) && c.contains(neg)) by {
            assert(c[0] == pos && c[1] == neg);
        }
        assert(!crate::sat::is_pure(cs, pos));
        assert(!crate::sat::is_pure(cs, neg));
        assert(!clause_has_pure(cs, c)) by {
            assert(forall|k: int| 0 <= k < 2 ==> (#[trigger] c[k]) == pos || c[k] == neg);
        }
        assert(cs.drop_last() =~= Seq::<Seq<Literal>>::empty());
        assert(pure_elim_go(cs, Seq::<Seq<Literal>>::empty()) =~= Seq::<Seq<Literal>>::empty());
        assert(pure_elim_go(cs, cs) =~= cs);
    }
    let cs1 = pure_elim_spec(propagate_spec(cs));
    assert(cs1 == cs);
    assert(!has_empty_clause_spec(cs1)) by {
        assert(forall|i: int| 0 <= i < 1 ==> (#[trigger] cs1[i]).len() == 2);
    }
    assert(cs1[0][0] == pos);
    let branch = cs1.push(seq![negate(pos)]);
    assert(dpll_spec(branch, (crate::sat::DPLL_FUEL - 1) as nat)) by {
        assert(branch[0] =~= c);
        assert(branch[0].len() == 2);
        assert(branch.drop_first() =~= seq![seq![neg]]);
        assert(seq![seq![neg]][0] =~= seq![neg]);
        assert(seq![seq![neg]][0].len() == 1);
        assert(seq![seq![neg]][0][0] == neg);
        assert(first_unit(seq![seq![neg]]) == Some(neg));
        assert(first_unit(branch) == Some(neg));
        assert(branch.last() =~= seq![neg]);
        assert(branch.drop_last() =~= cs);
        assert(seq![neg].contains(neg)) by {
            assert(seq![neg][0] == neg);
        }
        assert(c.contains(neg));
        assert(cs.last() =~= c);
        assert(cs.drop_last() =~= Seq::<Seq<Literal>>::empty());
        assert(drop_sat(Seq::<Seq<Literal>>::empty(), neg) =~= Seq::<Seq<Literal>>::empty());
        assert(drop_sat(cs, neg) =~= Seq::<Seq<Literal>>::empty());
        assert(drop_sat(branch, neg) =~= Seq::<Seq<Literal>>::empty());
        assert(strike(Seq::<Seq<Literal>>::empty(), pos) =~= Seq::<Seq<Literal>>::empty());
        assert(first_unit(Seq::<Seq<Literal>>::empty()) is None);
        assert(propagate_spec(Seq::<Seq<Literal>>::empty()) =~= Seq::<Seq<Literal>>::empty());
        assert(propagate_spec(branch) =~= Seq::<Seq<Literal>>::empty());
        assert(pure_elim_spec(Seq::<Seq<Literal>>::empty()) =~= Seq::<Seq<Literal>>::empty());
    }
    assert(crate::sat::DPLL_FUEL > 0);
    assert(dpll_spec(clauses_of(to_cnf_spec(f)), crate::sat::DPLL_FUEL as nat));
}


/// The assignment changed at one variable.
pub open spec fn override_var(a: spec_fn(Ident) -> bool, v: Ident, val: bool) -> spec_fn(
    Ident,
) -> bool {
    |id: Ident|
        if id == v {
            val
        } else {
            a(id)
        }
}

proof fn lemma_remove_lit_membership(c: Seq<Literal>, l: Literal, x: Literal)
    ensures
        remove_lit(c, l).contains(x) ==> c.contains(x) && x != l,
    decreases c.len(),
{
    if c.len() > 0 {
        lemma_remove_lit_membership(c.drop_last(), l, x);
        if c.last() == l {
            if remove_lit(c, l).contains(x) {
                let i = choose|i: int|
                    0 <= i < c.drop_last().len() && c.drop_last()[i] == x;
                assert(c[i] == x);
            }
        } else {
            crate::sat::lemma_push_contains(remove_lit(c.drop_last(), l), c.last(), x);
            if remove_lit(c, l).contains(x) {
                if x == c.last() {
                    assert(c[c.len() - 1] == x);
                } else {
                    let i = choose|i: int|
                        0 <= i < c.drop_last().len() && c.drop_last()[i] == x;
                    assert(c[i] == x);
                }
            }
        }
    }
}

/// Every clause that survives a propagation step stands, reduced, in the
/// step's result.
proof fn lemma_propagate_step_structure(cs: Seq<Seq<Literal>>, l: Literal, j: int)
    requires
        0 <= j < cs.len(),
        !cs[j].contains(l),
    ensures
        exists|i: int|
            0 <= i < strike(drop_sat(cs, l), negate(l)).len() && strike(drop_sat(cs, l), negate(l))[i]
                == remove_lit(cs[j], negate(l)),
    decreases cs.len(),
{
    let result = strike(drop_sat(cs, l), negate(l));
    if j == cs.len() - 1 {
        assert(drop_sat(cs, l) == drop_sat(cs.drop_last(), l).push(cs.last()));
        let ds = drop_sat(cs.drop_last(), l);
        assert(ds.push(cs.last()).drop_last() =~= ds);
        assert(result == strike(ds, negate(l)).push(remove_lit(cs.last(), negate(l))));
        assert(result[result.len() - 1] == remove_lit(cs[j], negate(l)));
    } else {
        assert(cs.drop_last()[j] == cs[j]);
        lemma_propagate_step_structure(cs.drop_last(), l, j);
        let prev = strike(drop_sat(cs.drop_last(), l), negate(l));
        let i = choose|i: int| 0 <= i < prev.len() && prev[i] == remove_lit(cs[j], negate(l));
        if cs.last().contains(l) {
            assert(drop_sat(cs, l) == drop_sat(cs.drop_last(), l));
            assert(result[i] == remove_lit(cs[j], negate(l)));
        } else {
            let ds = drop_sat(cs.drop_last(), l);
            assert(drop_sat(cs, l) == ds.push(cs.last()));
            assert(ds.push(cs.last()).drop_last() =~= ds);
            assert(result == prev.push(remove_lit(cs.last(), negate(l))));
            assert(result[i] == remove_lit(cs[j], negate(l)));
        }
    }
}

/// A model of a propagation step's result extends to a model of the step's
/// input by giving the propagated literal its own sign.
proof fn lemma_propagate_step_model(cs: Seq<Seq<Literal>>, l: Literal, a: spec_fn(Ident) -> bool)
    requires
        clauses_sat(a, strike(drop_sat(cs, l), negate(l))),
    ensures
        clauses_sat(override_var(a, l.identifier, l.polarity is Positive), cs),
{
    let a2 = override_var(a, l.identifier, l.polarity is Positive);
    assert forall|j: int| 0 <= j < cs.len() implies clause_sat(a2, #[trigger] cs[j]) by {
        if cs[j].contains(l) {
            let k = choose|k: int| 0 <= k < cs[j].len() && cs[j][k] == l;
            assert(lit_sat(a2, cs[j][k]));
        } else {
            lemma_propagate_step_structure(cs, l, j);
            let result = strike(drop_sat(cs, l), negate(l));
            let i = choose|i: int|
                0 <= i < result.len() && result[i] == remove_lit(cs[j], negate(l));
            assert(clause_sat(a, result[i]));
            let k = choose|k: int|
                0 <= k < remove_lit(cs[j], negate(l)).len() && lit_sat(
                    a,
                    #[trigger] remove_lit(cs[j], negate(l))[k],
                );
            let x = remove_lit(cs[j], negate(l))[k];
            assert(remove_lit(cs[j], negate(l)).contains(x));
            lemma_remove_lit_membership(cs[j], negate(l), x);
            assert(cs[j].contains(x) && x != negate(l));
            assert(x != l);
            assert(x.identifier != l.identifier) by {
                if x.identifier == l.identifier {
                    match x.polarity {
                        crate::sat::Polarity::Positive => {},
                        crate::sat::Polarity::Negative => {},
                    }
                }
            }
            assert(lit_sat(a2, x) == lit_sat(a, x));
            let kk = choose|kk: int| 0 <= kk < cs[j].len() && cs[j][kk] == x;
            assert(lit_sat(a2, cs[j][kk]));
        }
    }
}

/// A satisfiable propagation result means a satisfiable input.
proof fn lemma_propagate_model(cs: Seq<Seq<Literal>>)
    requires
        satisfiable_clauses(propagate_spec(cs)),
    ensures
        satisfiable_clauses(cs),
    decreases cs.len(),
{
    match first_unit(cs) {
        None => {},
        Some(l) => {
            crate::sat::lemma_first_unit_gives_contains(cs, l);
            crate::sat::lemma_drop_sat_shrinks(cs, l);
            crate::sat::lemma_strike_same_len(drop_sat(cs, l), negate(l));
            lemma_propagate_model(strike(drop_sat(cs, l), negate(l)));
            let a = choose|a: spec_fn(Ident) -> bool|
                clauses_sat(a, strike(drop_sat(cs, l), negate(l)));
            lemma_propagate_step_model(cs, l, a);
            assert(clauses_sat(
                override_var(a, l.identifier, l.polarity is Positive),
                cs,
            ));
        },
    }
}

/// Whether a literal with the given identifier occurs in the set and is pure.
pub open spec fn has_pure_literal_at(cs: Seq<Seq<Literal>>, id: Ident) -> bool {
    exists|l: Literal|
        l.identifier == id && crate::sat::all_lits(cs).contains(l) && crate::sat::is_pure(cs, l)
}

/// The assignment that gives every pure literal its own sign and leaves the
/// rest to `a`.
pub open spec fn pure_override(cs: Seq<Seq<Literal>>, a: spec_fn(Ident) -> bool) -> spec_fn(
    Ident,
) -> bool {
    |id: Ident|
        if has_pure_literal_at(cs, id) {
            (choose|l: Literal|
                l.identifier == id && crate::sat::all_lits(cs).contains(l) && crate::sat::is_pure(
                    cs,
                    l,
                )).polarity is Positive
        } else {
            a(id)
        }
}

/// Every clause that pure-literal elimination keeps stands in its result.
proof fn lemma_pure_elim_kept(all: Seq<Seq<Literal>>, cs: Seq<Seq<Literal>>, j: int)
    requires
        0 <= j < cs.len(),
        !clause_has_pure(all, cs[j]),
    ensures
        exists|i: int|
            0 <= i < pure_elim_go(all, cs).len() && pure_elim_go(all, cs)[i] == cs[j],
    decreases cs.len(),
{
    let result = pure_elim_go(all, cs);
    if j == cs.len() - 1 {
        assert(result == pure_elim_go(all, cs.drop_last()).push(cs.last()));
        assert(result[result.len() - 1] == cs[j]);
    } else {
        assert(cs.drop_last()[j] == cs[j]);
        lemma_pure_elim_kept(all, cs.drop_last(), j);
        let prev = pure_elim_go(all, cs.drop_last());
        let i = choose|i: int| 0 <= i < prev.len() && prev[i] == cs[j];
        if clause_has_pure(all, cs.last()) {
            assert(result[i] == cs[j]);
        } else {
            assert(result == prev.push(cs.last()));
            assert(result[i] == cs[j]);
        }
    }
}

/// A model of the set after pure-literal elimination extends to a model of
/// the whole set by giving every pure literal its own sign.
proof fn lemma_pure_elim_model(cs: Seq<Seq<Literal>>, a: spec_fn(Ident) -> bool)
    requires
        clauses_sat(a, pure_elim_spec(cs)),
    ensures
        clauses_sat(pure_override(cs, a), cs),
{
    let a2 = pure_override(cs, a);
    assert forall|j: int| 0 <= j < cs.len() implies clause_sat(a2, #[trigger] cs[j]) by {
        if clause_has_pure(cs, cs[j]) {
            let k = choose|k: int| 0 <= k < cs[j].len() && crate::sat::is_pure(cs, cs[j][k]);
            let p = cs[j][k];
            assert(cs[j].contains(p));
            crate::sat::lemma_all_lits_contains(cs, p);
            assert(crate::sat::all_lits(cs).contains(p));
            assert(has_pure_literal_at(cs, p.identifier));
            let chosen = choose|l: Literal|
                l.identifier == p.identifier && crate::sat::all_lits(cs).contains(l)
                    && crate::sat::is_pure(cs, l);
            assert(chosen == p) by {
                if chosen != p {
                    assert(chosen == negate(p)) by {
                        match chosen.polarity {
                            crate::sat::Polarity::Positive => {
                                match p.polarity {
                                    crate::sat::Polarity::Positive => {},
                                    crate::sat::Polarity::Negative => {},
                                }
                            },
                            crate::sat::Polarity::Negative => {
                                match p.polarity {
                                    crate::sat::Polarity::Positive => {},
                                    crate::sat::Polarity::Negative => {},
                                }
                            },
                        }
                    }
                    assert(negate(chosen) == p);
                    assert(!crate::sat::is_pure(cs, chosen));
                }
            }
            assert(lit_sat(a2, p));
        } else {
            lemma_pure_elim_kept(cs, cs, j);
            let result = pure_elim_go(cs, cs);
            let i = choose|i: int| 0 <= i < result.len() && result[i] == cs[j];
            assert(clause_sat(a, result[i]));
            let k = choose|k: int| 0 <= k < cs[j].len() && lit_sat(a, #[trigger] cs[j][k]);
            let x = cs[j][k];
            assert(!has_pure_literal_at(cs, x.identifier)) by {
                if has_pure_literal_at(cs, x.identifier) {
                    let l0 = choose|l: Literal|
                        l.identifier == x.identifier && crate::sat::all_lits(cs).contains(l)
                            && crate::sat::is_pure(cs, l);
                    assert(x == l0 || x == negate(l0)) by {
                        match x.polarity {
                            crate::sat::Polarity::Positive => {
                                match l0.polarity {
                                    crate::sat::Polarity::Positive => {},
                                    crate::sat::Polarity::Negative => {},
                                }
                            },
                            crate::sat::Polarity::Negative => {
                                match l0.polarity {
                                    crate::sat::Polarity::Positive => {},
                                    crate::sat::Polarity::Negative => {},
                                }
                            },
                        }
                    }
                    assert(cs[j].contains(x));
                    crate::sat::lemma_all_lits_contains(cs, x);
                    if x == negate(l0) {
                        assert(!crate::sat::is_pure(cs, l0));
                        assert(false);
                    } else {
                        assert(crate::sat::is_pure(cs, x));
                        assert(clause_has_pure(cs, cs[j]));
                        assert(false);
                    }
                }
            }
            assert(lit_sat(a2, x) == lit_sat(a, x));
            assert(lit_sat(a2, cs[j][k]));
        }
    }
}

/// Propagation runs to a fixed point: its result has no unit clause left.
pub proof fn lemma_propagate_leaves_no_unit(cs: Seq<Seq<Literal>>)
    ensures
        first_unit(propagate_spec(cs)) is None,
    decreases cs.len(),
{
    match first_unit(cs) {
        None => {},
        Some(l) => {
            crate::sat::lemma_first_unit_gives_contains(cs, l);
            crate::sat::lemma_drop_sat_shrinks(cs, l);
            crate::sat::lemma_strike_same_len(drop_sat(cs, l), negate(l));
            lemma_propagate_leaves_no_unit(strike(drop_sat(cs, l), negate(l)));
        },
    }
}

/// Soundness of the decision procedure: whenever it answers that a clause set
/// is satisfiable, some assignment indeed satisfies the set.
pub proof fn lemma_dpll_sound(cs: Seq<Seq<Literal>>, fuel: nat)
    ensures
        dpll_spec(cs, fuel) ==> satisfiable_clauses(cs),
    decreases fuel,
{
    if dpll_spec(cs, fuel) {
        let cs1 = pure_elim_spec(propagate_spec(cs));
        if cs1.len() == 0 {
            let a = |id: Ident| true;
            assert(clauses_sat(a, cs1));
        } else {
            let l = cs1[0][0];
            if dpll_spec(cs1.push(seq![negate(l)]), (fuel - 1) as nat) {
                lemma_dpll_sound(cs1.push(seq![negate(l)]), (fuel - 1) as nat);
                let a = choose|a: spec_fn(Ident) -> bool|
                    clauses_sat(a, cs1.push(seq![negate(l)]));
                assert forall|i: int| 0 <= i < cs1.len() implies clause_sat(
                    a,
                    #[trigger] cs1[i],
                ) by {
                    assert(cs1.push(seq![negate(l)])[i] == cs1[i]);
                    assert(clause_sat(a, cs1.push(seq![negate(l)])[i]));
                }
                assert(clauses_sat(a, cs1));
            } else {
                lemma_dpll_sound(cs1.push(seq![l]), (fuel - 1) as nat);
                let a = choose|a: spec_fn(Ident) -> bool| clauses_sat(a, cs1.push(seq![l]));
                assert forall|i: int| 0 <= i < cs1.len() implies clause_sat(
                    a,
                    #[trigger] cs1[i],
                ) by {
                    assert(cs1.push(seq![l])[i] == cs1[i]);
                    assert(clause_sat(a, cs1.push(seq![l])[i]));
                }
                assert(clauses_sat(a, cs1));
            }
        }
        let a1 = choose|a: spec_fn(Ident) -> bool| clauses_sat(a, cs1);
        lemma_pure_elim_model(propagate_spec(cs), a1);
        assert(satisfiable_clauses(propagate_spec(cs)));
        lemma_propagate_model(cs);
    }
}

/// Soundness of the whole pipeline: when the solver reports a formula
/// satisfiable, some assignment makes the formula true.
pub proof fn lemma_sat_sound(f: ASTNode)
    requires
        cnf_term(to_cnf_spec(f)),
    ensures
        crate::sat::sat_spec(f) ==> satisfiable_formula(f),
{
    if crate::sat::sat_spec(f) {
        lemma_dpll_sound(clauses_of(to_cnf_spec(f)), crate::sat::DPLL_FUEL as nat);
        lemma_pipeline_preserves_satisfiability(f);
    }
}

} // verus!
