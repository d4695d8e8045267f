//! What the conversion to conjunctive normal form guarantees: where it is
//! defined, when its result is in normal form, and that it keeps the meaning.

use vstd::prelude::*;

use crate::logic::{
    LogicNode, size, eval, equivalent, spec_optimize, spec_flatten_cnf, cnf_flattenable,
    spec_flatten_dnf, dnf_flattenable, or_row, clause_pairs, fold_and, spec_parse_cnf,
    spec_cnf_or, lemma_optimize_size, lemma_optimize_equivalent, lemma_size_positive,
    lemma_size_of_negated_pair,
};

verus! {

/// No `True` or `False` occurs in the formula.
pub open spec fn constant_free(e: LogicNode) -> bool
    decreases e,
{
    match e {
        LogicNode::And(l, r) => constant_free(*l) && constant_free(*r),
        LogicNode::Or(l, r) => constant_free(*l) && constant_free(*r),
        LogicNode::Not(c) => constant_free(*c),
        LogicNode::True => false,
        LogicNode::False => false,
        LogicNode::Variable(_) => true,
    }
}

/// A variable, a negated variable, or a constant.
pub open spec fn is_literal(e: LogicNode) -> bool {
    match e {
        LogicNode::Not(c) => *c is Variable,
        LogicNode::And(_, _) => false,
        LogicNode::Or(_, _) => false,
        _ => true,
    }
}

/// A disjunction of literals.
pub open spec fn is_clause(e: LogicNode) -> bool
    decreases e,
{
    match e {
        LogicNode::Or(l, r) => is_clause(*l) && is_clause(*r),
        _ => is_literal(e),
    }
}

/// Conjunctive normal form: a conjunction of clauses.
pub open spec fn is_cnf(e: LogicNode) -> bool
    decreases e,
{
    match e {
        LogicNode::And(l, r) => is_cnf(*l) && is_cnf(*r),
        _ => is_clause(e),
    }
}

/// The formulas on which `parse_cnf` produces a formula in normal form: a
/// double negation only wraps a formula already in normal form (it is returned
/// as it stands), and the negations pushed through conjunctions and
/// disjunctions satisfy the same.
pub open spec fn cnf_ready(e: LogicNode) -> bool
    decreases size(e),
{
    match e {
        LogicNode::And(l, r) => cnf_ready(*l) && cnf_ready(*r),
        LogicNode::Or(l, r) => cnf_ready(*l) && cnf_ready(*r),
        LogicNode::Not(c) => match *c {
            LogicNode::Not(n) => is_cnf(*n),
            LogicNode::And(l, r) => {
                proof {
                    lemma_size_of_negated_pair(*c);
                    lemma_size_positive(LogicNode::Not(l));
                    lemma_size_positive(LogicNode::Not(r));
                }
                cnf_ready(LogicNode::Not(l)) && cnf_ready(LogicNode::Not(r))
            },
            LogicNode::Or(l, r) => {
                proof {
                    lemma_size_of_negated_pair(*c);
                    lemma_size_positive(LogicNode::Not(l));
                    lemma_size_positive(LogicNode::Not(r));
                }
                cnf_ready(LogicNode::Not(l)) && cnf_ready(LogicNode::Not(r))
            },
            _ => true,
        },
        _ => true,
    }
}

/// The formulas on which `parse_cnf` keeps the meaning: no negation stands over
/// a disjunction, also after negations are pushed through conjunctions.
pub open spec fn negation_safe(e: LogicNode) -> bool
    decreases size(e),
{
    match e {
        LogicNode::And(l, r) => negation_safe(*l) && negation_safe(*r),
        LogicNode::Or(l, r) => negation_safe(*l) && negation_safe(*r),
        LogicNode::Not(c) => match *c {
            LogicNode::Not(_) => true,
            LogicNode::And(l, r) => {
                proof {
                    lemma_size_of_negated_pair(*c);
                    lemma_size_positive(LogicNode::Not(l));
                    lemma_size_positive(LogicNode::Not(r));
                }
                negation_safe(LogicNode::Not(l)) && negation_safe(LogicNode::Not(r))
            },
            LogicNode::Or(_, _) => false,
            _ => true,
        },
        _ => true,
    }
}

/// Every formula of the sequence holds under `env`.
pub open spec fn all_hold(s: Seq<LogicNode>, env: spec_fn(Seq<char>) -> bool) -> bool {
    forall|i: int| 0 <= i < s.len() ==> #[trigger] eval(s[i], env)
}

/// Some formula of the sequence holds under `env`.
pub open spec fn some_holds(s: Seq<LogicNode>, env: spec_fn(Seq<char>) -> bool) -> bool {
    exists|i: int| 0 <= i < s.len() && #[trigger] eval(s[i], env)
}

proof fn lemma_all_hold_concat(a: Seq<LogicNode>, b: Seq<LogicNode>, env: spec_fn(Seq<char>) -> bool)
    ensures
        all_hold(a + b, env) == (all_hold(a, env) && all_hold(b, env)),
        some_holds(a + b, env) == (some_holds(a, env) || some_holds(b, env)),
{
    if all_hold(a, env) && all_hold(b, env) {
        assert forall|i: int| 0 <= i < (a + b).len() implies #[trigger] eval((a + b)[i], env) by {
            if i < a.len() {
                assert(eval(a[i], env));
            } else {
                assert(eval(b[i - a.len()], env));
            }
        }
    }
    if all_hold(a + b, env) {
        assert forall|i: int| 0 <= i < a.len() implies #[trigger] eval(a[i], env) by {
            assert((a + b)[i] == a[i]);
        }
        assert forall|i: int| 0 <= i < b.len() implies #[trigger] eval(b[i], env) by {
            assert((a + b)[a.len() + i] == b[i]);
        }
    }
    if some_holds(a + b, env) {
        let i = choose|i: int| 0 <= i < (a + b).len() && #[trigger] eval((a + b)[i], env);
        if i < a.len() {
            assert(eval(a[i], env));
        } else {
            assert(eval(b[i - a.len()], env));
        }
    }
    if some_holds(a, env) {
        let i = choose|i: int| 0 <= i < a.len() && #[trigger] eval(a[i], env);
        assert(eval((a + b)[i], env));
    }
    if some_holds(b, env) {
        let i = choose|i: int| 0 <= i < b.len() && #[trigger] eval(b[i], env);
        assert(eval((a + b)[a.len() + i], env));
    }
}

/// `flatten_cnf` lists conjuncts: a formula holds exactly when all of them hold,
/// none of them is a conjunction, and there is at least one.
pub proof fn lemma_flatten_cnf_meaning(e: LogicNode, env: spec_fn(Seq<char>) -> bool)
    ensures
        eval(e, env) == all_hold(spec_flatten_cnf(e), env),
        spec_flatten_cnf(e).len() >= 1,
        forall|i: int|
            0 <= i < spec_flatten_cnf(e).len() ==> !(#[trigger] spec_flatten_cnf(e)[i] is And),
    decreases e,
{
    match e {
        LogicNode::And(l, r) => {
            lemma_flatten_cnf_meaning(*l, env);
            lemma_flatten_cnf_meaning(*r, env);
            lemma_all_hold_concat(spec_flatten_cnf(*r), spec_flatten_cnf(*l), env);
            let s = spec_flatten_cnf(e);
            assert forall|i: int| 0 <= i < s.len() implies !(#[trigger] s[i] is And) by {
                if i < spec_flatten_cnf(*r).len() {
                    assert(s[i] == spec_flatten_cnf(*r)[i]);
                } else {
                    assert(s[i] == spec_flatten_cnf(*l)[i - spec_flatten_cnf(*r).len()]);
                }
            }
        },
        _ => {
            assert(eval(spec_flatten_cnf(e)[0], env) == eval(e, env));
        },
    }
}

/// `flatten_dnf` lists disjuncts: a formula holds exactly when one of them holds,
/// and on the formulas it accepts each of them is a variable or a negation.
pub proof fn lemma_flatten_dnf_meaning(e: LogicNode, env: spec_fn(Seq<char>) -> bool)
    ensures
        eval(e, env) == some_holds(spec_flatten_dnf(e), env),
        spec_flatten_dnf(e).len() >= 1,
        dnf_flattenable(e) ==> forall|i: int|
            0 <= i < spec_flatten_dnf(e).len() ==> (#[trigger] spec_flatten_dnf(e)[i] is Not
                || spec_flatten_dnf(e)[i] is Variable),
    decreases e,
{
    match e {
        LogicNode::Or(l, r) => {
            lemma_flatten_dnf_meaning(*l, env);
            lemma_flatten_dnf_meaning(*r, env);
            lemma_all_hold_concat(spec_flatten_dnf(*r), spec_flatten_dnf(*l), env);
            let s = spec_flatten_dnf(e);
            if dnf_flattenable(e) {
                assert forall|i: int| 0 <= i < s.len() implies (#[trigger] s[i] is Not
                    || s[i] is Variable) by {
                    if i < spec_flatten_dnf(*r).len() {
                        assert(s[i] == spec_flatten_dnf(*r)[i]);
                    } else {
                        assert(s[i] == spec_flatten_dnf(*l)[i - spec_flatten_dnf(*r).len()]);
                    }
                }
            }
        },
        _ => {
            assert(eval(spec_flatten_dnf(e)[0], env) == eval(e, env));
        },
    }
}

/// Conjuncts of a formula in normal form are clauses; conjuncts of a
/// constant-free formula are constant-free, and such a formula is accepted by
/// `flatten_cnf`.
proof fn lemma_flatten_cnf_shape(e: LogicNode)
    ensures
        is_cnf(e) ==> forall|i: int|
            0 <= i < spec_flatten_cnf(e).len() ==> is_clause(#[trigger] spec_flatten_cnf(e)[i]),
        constant_free(e) ==> cnf_flattenable(e),
        constant_free(e) ==> forall|i: int|
            0 <= i < spec_flatten_cnf(e).len() ==> constant_free(#[trigger] spec_flatten_cnf(e)[i]),
    decreases e,
{
    match e {
        LogicNode::And(l, r) => {
            lemma_flatten_cnf_shape(*l);
            lemma_flatten_cnf_shape(*r);
            let s = spec_flatten_cnf(e);
            let sr = spec_flatten_cnf(*r);
            let sl = spec_flatten_cnf(*l);
            assert forall|i: int| 0 <= i < s.len() implies s[i] == (if i < sr.len() {
                sr[i]
            } else {
                sl[i - sr.len()]
            }) by {}
        },
        _ => {},
    }
}

proof fn lemma_or_row(x: LogicNode, fr: Seq<LogicNode>, env: spec_fn(Seq<char>) -> bool)
    ensures
        all_hold(or_row(x, fr), env) == (eval(x, env) || all_hold(fr, env)),
        is_clause(x) && (forall|j: int| 0 <= j < fr.len() ==> is_clause(#[trigger] fr[j]))
            ==> forall|j: int| 0 <= j < fr.len() ==> is_clause(#[trigger] or_row(x, fr)[j]),
        constant_free(x) && (forall|j: int| 0 <= j < fr.len() ==> constant_free(#[trigger] fr[j]))
            ==> forall|j: int| 0 <= j < fr.len() ==> constant_free(#[trigger] or_row(x, fr)[j]),
{
    let row = or_row(x, fr);
    if !eval(x, env) && !all_hold(fr, env) {
        let j = choose|j: int| 0 <= j < fr.len() && !#[trigger] eval(fr[j], env);
        assert(!eval(row[j], env));
    }
    if eval(x, env) || all_hold(fr, env) {
        assert forall|j: int| 0 <= j < row.len() implies #[trigger] eval(row[j], env) by {
            assert(row[j] == LogicNode::Or(Box::new(x), Box::new(fr[j])));
            if !eval(x, env) {
                assert(eval(fr[j], env));
            }
        }
    }
}

/// Distribution: every pairwise disjunction holds exactly when all of `fl` or
/// all of `fr` hold; pairs of clauses are clauses, pairs of constant-free
/// formulas are constant-free, and there is a pair when both sides are non-empty.
pub proof fn lemma_clause_pairs(fl: Seq<LogicNode>, fr: Seq<LogicNode>, env: spec_fn(Seq<char>) -> bool)
    ensures
        all_hold(clause_pairs(fl, fr), env) == (all_hold(fl, env) || all_hold(fr, env)),
        (forall|i: int| 0 <= i < fl.len() ==> is_clause(#[trigger] fl[i])) && (forall|j: int|
            0 <= j < fr.len() ==> is_clause(#[trigger] fr[j])) ==> forall|k: int|
            0 <= k < clause_pairs(fl, fr).len() ==> is_clause(#[trigger] clause_pairs(fl, fr)[k]),
        (forall|i: int| 0 <= i < fl.len() ==> constant_free(#[trigger] fl[i])) && (forall|j: int|
            0 <= j < fr.len() ==> constant_free(#[trigger] fr[j])) ==> forall|k: int|
            0 <= k < clause_pairs(fl, fr).len() ==> constant_free(
                #[trigger] clause_pairs(fl, fr)[k],
            ),
        fl.len() >= 1 && fr.len() >= 1 ==> clause_pairs(fl, fr).len() >= 1,
    decreases fl.len(),
{
    if fl.len() == 0 {
        assert(all_hold(fl, env));
    } else {
        let init = fl.drop_last();
        let x = fl.last();
        lemma_clause_pairs(init, fr, env);
        lemma_or_row(x, fr, env);
        let p = clause_pairs(init, fr);
        let row = or_row(x, fr);
        lemma_all_hold_concat(p, row, env);
        assert(all_hold(fl, env) == (all_hold(init, env) && eval(x, env))) by {
            assert(fl =~= init.push(x));
            lemma_all_hold_concat(init, seq![x], env);
            assert(init + seq![x] =~= fl);
            assert(all_hold(seq![x], env) == eval(x, env)) by {
                assert(seq![x][0] == x);
            }
        }
        let whole = clause_pairs(fl, fr);
        assert(whole == p + row);
        assert forall|k: int| 0 <= k < whole.len() implies whole[k] == (if k < p.len() {
            p[k]
        } else {
            row[k - p.len()]
        }) by {}
        if (forall|i: int| 0 <= i < fl.len() ==> is_clause(#[trigger] fl[i])) {
            assert forall|i: int| 0 <= i < init.len() implies is_clause(#[trigger] init[i]) by {
                assert(init[i] == fl[i]);
            }
            assert(is_clause(fl[fl.len() - 1]));
        }
        if (forall|i: int| 0 <= i < fl.len() ==> constant_free(#[trigger] fl[i])) {
            assert forall|i: int| 0 <= i < init.len() implies constant_free(#[trigger] init[i]) by {
                assert(init[i] == fl[i]);
            }
            assert(constant_free(fl[fl.len() - 1]));
        }
        if fr.len() >= 1 {
            assert(row.len() >= 1);
        }
    }
}

/// The fold into conjunctions holds exactly when every folded formula holds, and
/// is in normal form when every folded formula is a clause.
pub proof fn lemma_fold_and(s: Seq<LogicNode>, env: spec_fn(Seq<char>) -> bool)
    ensures
        eval(fold_and(s), env) == all_hold(s, env),
        (forall|i: int| 0 <= i < s.len() ==> is_clause(#[trigger] s[i])) ==> is_cnf(fold_and(s)),
    decreases s.len(),
{
    if s.len() > 0 {
        let init = s.drop_last();
        assert(fold_and(s) == LogicNode::And(Box::new(fold_and(init)), Box::new(s.last())));
        lemma_fold_and(init, env);
        lemma_all_hold_concat(init, seq![s.last()], env);
        assert(init + seq![s.last()] =~= s);
        assert(all_hold(seq![s.last()], env) == eval(s.last(), env)) by {
            assert(seq![s.last()][0] == s.last());
        }
        if (forall|i: int| 0 <= i < s.len() ==> is_clause(#[trigger] s[i])) {
            assert forall|i: int| 0 <= i < init.len() implies is_clause(#[trigger] init[i]) by {
                assert(init[i] == s[i]);
            }
            assert(is_clause(s[s.len() - 1]));
            lemma_clause_is_cnf(s.last());
        }
    } else {
        assert(is_literal(LogicNode::True));
        assert(is_cnf(fold_and(s)));
    }
}

pub proof fn lemma_clause_is_cnf(e: LogicNode)
    ensures
        is_clause(e) ==> is_cnf(e),
{
    if is_clause(e) {
        assert(!(e is And));
    }
}

/// Simplification keeps clauses clauses and normal forms normal.
pub proof fn lemma_optimize_keeps_cnf(e: LogicNode)
    ensures
        is_clause(e) ==> is_clause(spec_optimize(e)),
        is_cnf(e) ==> is_cnf(spec_optimize(e)),
    decreases e,
{
    match e {
        LogicNode::And(l, r) => {
            lemma_optimize_keeps_cnf(*l);
            lemma_optimize_keeps_cnf(*r);
        },
        LogicNode::Or(l, r) => {
            lemma_optimize_keeps_cnf(*l);
            lemma_optimize_keeps_cnf(*r);
            lemma_clause_is_cnf(*l);
            lemma_clause_is_cnf(*r);
            lemma_clause_is_cnf(spec_optimize(e));
        },
        _ => {},
    }
}

/// Simplification leaves a constant-free formula unchanged.
pub proof fn lemma_optimize_constant_free(e: LogicNode)
    ensures
        constant_free(e) ==> spec_optimize(e) == e,
    decreases e,
{
    match e {
        LogicNode::And(l, r) => {
            lemma_optimize_constant_free(*l);
            lemma_optimize_constant_free(*r);
            if constant_free(e) {
                assert(constant_free(*l) && constant_free(*r));
                if *l is True || *r is True {
                    assert(!constant_free(LogicNode::True));
                }
                assert(Box::new(spec_optimize(*l)) == l);
                assert(Box::new(spec_optimize(*r)) == r);
            }
        },
        LogicNode::Or(l, r) => {
            lemma_optimize_constant_free(*l);
            lemma_optimize_constant_free(*r);
            if constant_free(e) {
                assert(constant_free(*l) && constant_free(*r));
                if *l is False || *r is False {
                    assert(!constant_free(LogicNode::False));
                }
                assert(Box::new(spec_optimize(*l)) == l);
                assert(Box::new(spec_optimize(*r)) == r);
            }
        },
        _ => {},
    }
}

/// Simplification keeps formulas ready for conversion, and negation-safe.
proof fn lemma_optimize_keeps_ready(e: LogicNode)
    ensures
        cnf_ready(e) ==> cnf_ready(spec_optimize(e)),
        negation_safe(e) ==> negation_safe(spec_optimize(e)),
    decreases e,
{
    match e {
        LogicNode::And(l, r) => {
            lemma_optimize_keeps_ready(*l);
            lemma_optimize_keeps_ready(*r);
        },
        LogicNode::Or(l, r) => {
            lemma_optimize_keeps_ready(*l);
            lemma_optimize_keeps_ready(*r);
        },
        _ => {},
    }
}

/// Folding a non-empty list of constant-free formulas and simplifying drops the
/// leading `True` and leaves a constant-free formula.
proof fn lemma_fold_and_optimized(s: Seq<LogicNode>)
    requires
        s.len() >= 1,
        forall|i: int| 0 <= i < s.len() ==> constant_free(#[trigger] s[i]),
    ensures
        constant_free(spec_optimize(fold_and(s))),
    decreases s.len(),
{
    let init = s.drop_last();
    lemma_optimize_constant_free(s.last());
    assert(constant_free(s[s.len() - 1]));
    if s.len() > 1 {
        assert forall|i: int| 0 <= i < init.len() implies constant_free(#[trigger] init[i]) by {
            assert(init[i] == s[i]);
        }
        lemma_fold_and_optimized(init);
    } else {
        assert(init.len() == 0);
    }
}

/// Totality: `parse_cnf` does not stop on a constant-free formula, and its
/// result is constant-free again.
pub proof fn lemma_parse_cnf_total(e: LogicNode)
    requires
        constant_free(e),
    ensures
        spec_parse_cnf(e) is Some,
        constant_free(spec_parse_cnf(e)->0),
    decreases size(e), 1nat,
{
    lemma_optimize_constant_free(e);
    lemma_optimize_size(e);
    match e {
        LogicNode::And(l, r) => {
            lemma_parse_cnf_total(*l);
            lemma_parse_cnf_total(*r);
            assert(spec_optimize(e) == e);
        },
        LogicNode::Or(l, r) => {
            lemma_cnf_or_total(*l, *r);
        },
        LogicNode::Not(c) => {
            assert(constant_free(*c));
            match *c {
                LogicNode::And(l, r) => {
                    lemma_size_of_negated_pair(*c);
                    assert(constant_free(*c));
                    assert(constant_free(LogicNode::Not(l)));
                    lemma_cnf_or_total(LogicNode::Not(l), LogicNode::Not(r));
                },
                LogicNode::Or(l, r) => {
                    lemma_size_of_negated_pair(*c);
                    assert(constant_free(*c));
                    assert(constant_free(LogicNode::Not(l)));
                    lemma_cnf_or_total(LogicNode::Not(l), LogicNode::Not(r));
                },
                _ => {},
            }
        },
        _ => {},
    }
}

proof fn lemma_cnf_or_total(a: LogicNode, b: LogicNode)
    requires
        constant_free(a),
        constant_free(b),
    ensures
        spec_cnf_or(a, b) is Some,
        constant_free(spec_cnf_or(a, b)->0),
    decreases size(a) + size(b), 0nat,
{
    lemma_size_positive(a);
    lemma_size_positive(b);
    lemma_parse_cnf_total(a);
    lemma_parse_cnf_total(b);
    let lc = spec_parse_cnf(a)->0;
    let rc = spec_parse_cnf(b)->0;
    lemma_flatten_cnf_shape(lc);
    lemma_flatten_cnf_shape(rc);
    let env = |v: Seq<char>| true;
    lemma_flatten_cnf_meaning(lc, env);
    lemma_flatten_cnf_meaning(rc, env);
    let fl = spec_flatten_cnf(lc);
    let fr = spec_flatten_cnf(rc);
    lemma_clause_pairs(fl, fr, env);
    lemma_fold_and_optimized(clause_pairs(fl, fr));
}

/// Meaning law: where it does not stop, `parse_cnf` keeps the meaning of a
/// negation-safe formula (one where no negation comes to stand over a
/// disjunction, which it would rewrite into the disjunction of the negated
/// operands).
pub proof fn lemma_parse_cnf_equivalent(e: LogicNode)
    requires
        negation_safe(e),
        spec_parse_cnf(e) is Some,
    ensures
        equivalent(spec_parse_cnf(e)->0, e),
    decreases size(e), 1nat,
{
    let o = spec_optimize(e);
    let res = spec_parse_cnf(e)->0;
    lemma_optimize_size(e);
    lemma_optimize_keeps_ready(e);
    lemma_optimize_equivalent(e);
    assert(forall|env: spec_fn(Seq<char>) -> bool| #[trigger] eval(o, env) == eval(e, env));
    match o {
        LogicNode::And(l, r) => {
            lemma_parse_cnf_equivalent(*l);
            lemma_parse_cnf_equivalent(*r);
            let a = spec_parse_cnf(*l)->0;
            let b = spec_parse_cnf(*r)->0;
            assert forall|env: spec_fn(Seq<char>) -> bool| #[trigger] eval(res, env) == eval(e, env) by {
                assert(eval(a, env) == eval(*l, env));
                assert(eval(b, env) == eval(*r, env));
                assert(eval(o, env) == eval(e, env));
            }
        },
        LogicNode::Or(l, r) => {
            lemma_cnf_or_equivalent(*l, *r);
            assert forall|env: spec_fn(Seq<char>) -> bool| #[trigger] eval(res, env) == eval(e, env) by {
                assert(eval(o, env) == eval(e, env));
            }
        },
        LogicNode::Not(c) => {
            match *c {
                LogicNode::Not(n) => {
                    assert forall|env: spec_fn(Seq<char>) -> bool|
                        #[trigger] eval(res, env) == eval(e, env) by {
                        assert(eval(o, env) == eval(e, env));
                        assert(eval(*c, env) == !eval(*n, env));
                    }
                },
                LogicNode::And(l, r) => {
                    lemma_size_of_negated_pair(*c);
                    lemma_cnf_or_equivalent(LogicNode::Not(l), LogicNode::Not(r));
                    assert forall|env: spec_fn(Seq<char>) -> bool|
                        #[trigger] eval(res, env) == eval(e, env) by {
                        assert(eval(o, env) == eval(e, env));
                        assert(eval(LogicNode::Not(l), env) == !eval(*l, env));
                        assert(eval(*c, env) == (eval(*l, env) && eval(*r, env)));
                        assert(eval(LogicNode::Not(r), env) == !eval(*r, env));
                    }
                },
                LogicNode::Or(_, _) => {
                    assert(!negation_safe(o));
                },
                _ => {
                    assert forall|env: spec_fn(Seq<char>) -> bool|
                        #[trigger] eval(res, env) == eval(e, env) by {
                        assert(eval(o, env) == eval(e, env));
                        assert(eval(o, env) == !eval(*c, env));
                    }
                },
            }
        },
        _ => {
            assert forall|env: spec_fn(Seq<char>) -> bool| #[trigger] eval(res, env) == eval(e, env) by {
                assert(eval(o, env) == eval(e, env));
            }
        },
    }
}

proof fn lemma_cnf_or_equivalent(a: LogicNode, b: LogicNode)
    requires
        negation_safe(a),
        negation_safe(b),
        spec_cnf_or(a, b) is Some,
    ensures
        forall|env: spec_fn(Seq<char>) -> bool|
            #[trigger] eval(spec_cnf_or(a, b)->0, env) == (eval(a, env) || eval(b, env)),
    decreases size(a) + size(b), 0nat,
{
    lemma_size_positive(a);
    lemma_size_positive(b);
    lemma_parse_cnf_equivalent(a);
    lemma_parse_cnf_equivalent(b);
    let lc = spec_parse_cnf(a)->0;
    let rc = spec_parse_cnf(b)->0;
    let fl = spec_flatten_cnf(lc);
    let fr = spec_flatten_cnf(rc);
    let pairs = clause_pairs(fl, fr);
    let folded = fold_and(pairs);
    let res = spec_cnf_or(a, b)->0;
    lemma_optimize_equivalent(folded);
    assert forall|env: spec_fn(Seq<char>) -> bool|
        #[trigger] eval(res, env) == (eval(a, env) || eval(b, env)) by {
        lemma_flatten_cnf_meaning(lc, env);
        lemma_flatten_cnf_meaning(rc, env);
        lemma_clause_pairs(fl, fr, env);
        lemma_fold_and(pairs, env);
        assert(eval(res, env) == eval(folded, env));
        assert(eval(lc, env) == eval(a, env));
        assert(eval(rc, env) == eval(b, env));
    }
}

/// Normal-form law: where it does not stop, `parse_cnf` turns a formula ready
/// for conversion (see `cnf_ready`) into a formula in conjunctive normal form.
pub proof fn lemma_parse_cnf_normal(e: LogicNode)
    requires
        cnf_ready(e),
        spec_parse_cnf(e) is Some,
    ensures
        is_cnf(spec_parse_cnf(e)->0),
    decreases size(e), 1nat,
{
    let o = spec_optimize(e);
    lemma_optimize_size(e);
    lemma_optimize_keeps_ready(e);
    match o {
        LogicNode::And(l, r) => {
            lemma_parse_cnf_normal(*l);
            lemma_parse_cnf_normal(*r);
        },
        LogicNode::Or(l, r) => {
            lemma_cnf_or_normal(*l, *r);
        },
        LogicNode::Not(c) => {
            match *c {
                LogicNode::And(l, r) => {
                    lemma_size_of_negated_pair(*c);
                    lemma_cnf_or_normal(LogicNode::Not(l), LogicNode::Not(r));
                },
                LogicNode::Or(l, r) => {
                    lemma_size_of_negated_pair(*c);
                    lemma_cnf_or_normal(LogicNode::Not(l), LogicNode::Not(r));
                },
                _ => {},
            }
        },
        _ => {},
    }
}

proof fn lemma_cnf_or_normal(a: LogicNode, b: LogicNode)
    requires
        cnf_ready(a),
        cnf_ready(b),
        spec_cnf_or(a, b) is Some,
    ensures
        is_cnf(spec_cnf_or(a, b)->0),
    decreases size(a) + size(b), 0nat,
{
    lemma_size_positive(a);
    lemma_size_positive(b);
    lemma_parse_cnf_normal(a);
    lemma_parse_cnf_normal(b);
    let lc = spec_parse_cnf(a)->0;
    let rc = spec_parse_cnf(b)->0;
    lemma_flatten_cnf_shape(lc);
    lemma_flatten_cnf_shape(rc);
    let fl = spec_flatten_cnf(lc);
    let fr = spec_flatten_cnf(rc);
    let pairs = clause_pairs(fl, fr);
    let folded = fold_and(pairs);
    let env0 = |v: Seq<char>| true;
    lemma_clause_pairs(fl, fr, env0);
    lemma_fold_and(pairs, env0);
    lemma_optimize_keeps_cnf(folded);
}

/// Fixpoint law: a constant-free formula already in conjunctive normal form
/// comes back unchanged from `parse_cnf`.
pub proof fn lemma_parse_cnf_fixpoint(e: LogicNode)
    requires
        is_cnf(e),
        constant_free(e),
    ensures
        spec_parse_cnf(e) == Some(e),
    decreases size(e), 1nat,
{
    lemma_optimize_constant_free(e);
    match e {
        LogicNode::And(l, r) => {
            lemma_parse_cnf_fixpoint(*l);
            lemma_parse_cnf_fixpoint(*r);
            assert(LogicNode::And(Box::new(*l), Box::new(*r)) == e);
        },
        LogicNode::Or(l, r) => {
            assert(is_clause(e));
            lemma_cnf_or_of_clauses(*l, *r);
            assert(LogicNode::Or(Box::new(*l), Box::new(*r)) == e);
        },
        _ => {},
    }
}

/// Two constant-free clauses are joined as they stand.
proof fn lemma_cnf_or_of_clauses(a: LogicNode, b: LogicNode)
    requires
        is_clause(a),
        is_clause(b),
        constant_free(a),
        constant_free(b),
    ensures
        spec_cnf_or(a, b) == Some(LogicNode::Or(Box::new(a), Box::new(b))),
    decreases size(a) + size(b), 0nat,
{
    lemma_size_positive(a);
    lemma_size_positive(b);
    lemma_clause_is_cnf(a);
    lemma_clause_is_cnf(b);
    lemma_parse_cnf_fixpoint(a);
    lemma_parse_cnf_fixpoint(b);
    assert(!(a is And));
    assert(!(b is And));
    assert(spec_flatten_cnf(a) == seq![a]);
    assert(spec_flatten_cnf(b) == seq![b]);
    let x = LogicNode::Or(Box::new(a), Box::new(b));
    let pairs = clause_pairs(seq![a], seq![b]);
    assert(seq![a].drop_last() =~= Seq::<LogicNode>::empty());
    assert(seq![a].last() == a);
    assert(clause_pairs(Seq::<LogicNode>::empty(), seq![b]) =~= Seq::<LogicNode>::empty());
    assert(or_row(a, seq![b]) =~= seq![x]);
    assert(pairs == clause_pairs(seq![a].drop_last(), seq![b]) + or_row(seq![a].last(), seq![b]));
    assert(pairs =~= seq![x]);
    assert(seq![x].drop_last() =~= Seq::<LogicNode>::empty());
    assert(seq![x].last() == x);
    assert(fold_and(Seq::<LogicNode>::empty()) == LogicNode::True);
    assert(fold_and(seq![x]) == LogicNode::And(Box::new(LogicNode::True), Box::new(x)));
    assert(fold_and(pairs) == LogicNode::And(Box::new(LogicNode::True), Box::new(x)));
    if a is True || b is True || a is False || b is False {
        assert(!constant_free(a) || !constant_free(b));
    }
}

/// Idempotence: on a constant-free formula, converting the result once more
/// changes nothing wherever the first result is in conjunctive normal form,
/// which holds in particular for every formula ready for conversion.
pub proof fn lemma_parse_cnf_idempotent(e: LogicNode)
    requires
        constant_free(e),
    ensures
        spec_parse_cnf(e) is Some,
        is_cnf(spec_parse_cnf(e)->0) ==> spec_parse_cnf(spec_parse_cnf(e)->0) == spec_parse_cnf(e),
        cnf_ready(e) ==> spec_parse_cnf(spec_parse_cnf(e)->0) == spec_parse_cnf(e),
{
    lemma_parse_cnf_total(e);
    if cnf_ready(e) {
        lemma_parse_cnf_normal(e);
    }
    if is_cnf(spec_parse_cnf(e)->0) {
        lemma_parse_cnf_fixpoint(spec_parse_cnf(e)->0);
    }
}

/// Whether no `True` or `False` occurs in the formula; on such formulas
/// `parse_cnf` is always defined (see `lemma_parse_cnf_total`).
pub fn is_constant_free(e: &LogicNode) -> (b: bool)
    ensures
        b == constant_free(*e),
    decreases *e,
{
    match e {
        LogicNode::And(l, r) => is_constant_free(l) && is_constant_free(r),
        LogicNode::Or(l, r) => is_constant_free(l) && is_constant_free(r),
        LogicNode::Not(c) => is_constant_free(c),
        LogicNode::True => false,
        LogicNode::False => false,
        LogicNode::Variable(_) => true,
    }
}

} // verus!
