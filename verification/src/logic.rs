//! Boolean formulas, their meaning, and the rewrites applied to them.

use vstd::prelude::*;

verus! {

/// A propositional formula, shaped like the parse trees of the formula parser.
#[derive(Debug, PartialEq, Eq)]
pub enum LogicNode {
    /// Conjunction of left and right.
    And(Box<LogicNode>, Box<LogicNode>),
    /// Disjunction of left and right.
    Or(Box<LogicNode>, Box<LogicNode>),
    /// Negation of the child.
    Not(Box<LogicNode>),
    /// The constant true.
    True,
    /// The constant false.
    False,
    /// A named variable.
    Variable(String),
}

/// Number of nodes of a formula.
pub open spec fn size(e: LogicNode) -> nat
    decreases e,
{
    match e {
        LogicNode::And(l, r) => 1 + size(*l) + size(*r),
        LogicNode::Or(l, r) => 1 + size(*l) + size(*r),
        LogicNode::Not(c) => 1 + size(*c),
        _ => 1,
    }
}

/// Truth value of a formula when every variable name `v` has the value `env(v)`.
pub open spec fn eval(e: LogicNode, env: spec_fn(Seq<char>) -> bool) -> bool
    decreases e,
{
    match e {
        LogicNode::And(l, r) => eval(*l, env) && eval(*r, env),
        LogicNode::Or(l, r) => eval(*l, env) || eval(*r, env),
        LogicNode::Not(c) => !eval(*c, env),
        LogicNode::True => true,
        LogicNode::False => false,
        LogicNode::Variable(v) => env(v@),
    }
}

/// Two formulas are equivalent when they agree under every assignment.
pub open spec fn equivalent(a: LogicNode, b: LogicNode) -> bool {
    forall|env: spec_fn(Seq<char>) -> bool| #[trigger] eval(a, env) == eval(b, env)
}

/// The result of `optimize`: a `True` operand of a conjunction and a `False`
/// operand of a disjunction are dropped (the other operand is kept as it is);
/// otherwise both operands are simplified in turn.
pub open spec fn spec_optimize(e: LogicNode) -> LogicNode
    decreases e,
{
    match e {
        LogicNode::And(l, r) => {
            if *l is True {
                *r
            } else if *r is True {
                *l
            } else {
                LogicNode::And(Box::new(spec_optimize(*l)), Box::new(spec_optimize(*r)))
            }
        },
        LogicNode::Or(l, r) => {
            if *l is False {
                *r
            } else if *r is False {
                *l
            } else {
                LogicNode::Or(Box::new(spec_optimize(*l)), Box::new(spec_optimize(*r)))
            }
        },
        _ => e,
    }
}

/// Simplification never grows a formula.
pub proof fn lemma_optimize_size(e: LogicNode)
    ensures
        size(spec_optimize(e)) <= size(e),
    decreases e,
{
    match e {
        LogicNode::And(l, r) => {
            lemma_optimize_size(*l);
            lemma_optimize_size(*r);
        },
        LogicNode::Or(l, r) => {
            lemma_optimize_size(*l);
            lemma_optimize_size(*r);
        },
        _ => {},
    }
}

/// Simplification keeps the meaning of a formula under every assignment.
pub proof fn lemma_optimize_equivalent(e: LogicNode)
    ensures
        equivalent(spec_optimize(e), e),
    decreases e,
{
    match e {
        LogicNode::And(l, r) => {
            lemma_optimize_equivalent(*l);
            lemma_optimize_equivalent(*r);
            assert forall|env: spec_fn(Seq<char>) -> bool|
                #[trigger] eval(spec_optimize(e), env) == eval(e, env) by {
                assert(eval(spec_optimize(*l), env) == eval(*l, env));
                assert(eval(spec_optimize(*r), env) == eval(*r, env));
            }
        },
        LogicNode::Or(l, r) => {
            lemma_optimize_equivalent(*l);
            lemma_optimize_equivalent(*r);
            assert forall|env: spec_fn(Seq<char>) -> bool|
                #[trigger] eval(spec_optimize(e), env) == eval(e, env) by {
                assert(eval(spec_optimize(*l), env) == eval(*l, env));
                assert(eval(spec_optimize(*r), env) == eval(*r, env));
            }
        },
        _ => {},
    }
}

fn is_true(e: &LogicNode) -> (b: bool)
    ensures
        b == (*e is True),
{
    match e {
        LogicNode::True => true,
        _ => false,
    }
}

fn is_false(e: &LogicNode) -> (b: bool)
    ensures
        b == (*e is False),
{
    match e {
        LogicNode::False => true,
        _ => false,
    }
}

/// Drops `True` operands of conjunctions and `False` operands of disjunctions.
pub fn optimize(expr: Box<LogicNode>) -> (res: Box<LogicNode>)
    ensures
        *res == spec_optimize(*expr),
    decreases *expr,
{
    match *expr {
        LogicNode::And(left, rigt) => {
            if is_true(&left) {
                return rigt;
            }
            if is_true(&rigt) {
                return left;
            }
            let left_optimized = optimize(left);
            let rigt_optimized = optimize(rigt);
            Box::new(LogicNode::And(left_optimized, rigt_optimized))
        },
        LogicNode::Or(left, rigt) => {
            if is_false(&left) {
                return rigt;
            }
            if is_false(&rigt) {
                return left;
            }
            let left_optimized = optimize(left);
            let rigt_optimized = optimize(rigt);
            Box::new(LogicNode::Or(left_optimized, rigt_optimized))
        },
        other => Box::new(other),
    }
}

/// The formulas of a sequence of boxed formulas.
pub open spec fn unboxed(s: Seq<Box<LogicNode>>) -> Seq<LogicNode> {
    s.map_values(|b: Box<LogicNode>| *b)
}

/// The conjuncts of a formula, read along its spine of conjunctions from right
/// to left (the order in which `flatten_cnf` emits them).
pub open spec fn spec_flatten_cnf(e: LogicNode) -> Seq<LogicNode>
    decreases e,
{
    match e {
        LogicNode::And(l, r) => spec_flatten_cnf(*r) + spec_flatten_cnf(*l),
        _ => seq![e],
    }
}

/// `flatten_cnf` accepts a formula when no constant stands on its spine of conjunctions.
pub open spec fn cnf_flattenable(e: LogicNode) -> bool
    decreases e,
{
    match e {
        LogicNode::And(l, r) => cnf_flattenable(*l) && cnf_flattenable(*r),
        LogicNode::True => false,
        LogicNode::False => false,
        _ => true,
    }
}

/// The disjuncts of a formula, read along its spine of disjunctions from right to left.
pub open spec fn spec_flatten_dnf(e: LogicNode) -> Seq<LogicNode>
    decreases e,
{
    match e {
        LogicNode::Or(l, r) => spec_flatten_dnf(*r) + spec_flatten_dnf(*l),
        _ => seq![e],
    }
}

/// `flatten_dnf` accepts a formula whose spine of disjunctions ends only in
/// variables and negations.
pub open spec fn dnf_flattenable(e: LogicNode) -> bool
    decreases e,
{
    match e {
        LogicNode::Or(l, r) => dnf_flattenable(*l) && dnf_flattenable(*r),
        LogicNode::Not(_) => true,
        LogicNode::Variable(_) => true,
        _ => false,
    }
}

/// Conjuncts still owed by a work stack: the top of the stack comes first.
spec fn stack_cnf(s: Seq<LogicNode>) -> Seq<LogicNode>
    decreases s.len(),
{
    if s.len() == 0 {
        seq![]
    } else {
        spec_flatten_cnf(s.last()) + stack_cnf(s.drop_last())
    }
}

spec fn stack_dnf(s: Seq<LogicNode>) -> Seq<LogicNode>
    decreases s.len(),
{
    if s.len() == 0 {
        seq![]
    } else {
        spec_flatten_dnf(s.last()) + stack_dnf(s.drop_last())
    }
}

spec fn stack_size(s: Seq<LogicNode>) -> nat
    decreases s.len(),
{
    if s.len() == 0 {
        0
    } else {
        size(s.last()) + stack_size(s.drop_last())
    }
}

/// Splits a formula along its spine of conjunctions into the list of its conjuncts.
pub fn flatten_cnf(expr: Box<LogicNode>) -> (res: Vec<Box<LogicNode>>)
    requires
        cnf_flattenable(*expr),
    ensures
        unboxed(res@) == spec_flatten_cnf(*expr),
{
    let ghost e0 = *expr;
    let ghost target = spec_flatten_cnf(e0);
    let mut res: Vec<Box<LogicNode>> = Vec::new();
    let mut un_resolved: Vec<Box<LogicNode>> = Vec::new();
    un_resolved.push(expr);
    proof {
        assert(unboxed(un_resolved@).drop_last() =~= Seq::<LogicNode>::empty());
        assert(unboxed(un_resolved@).last() == e0);
        assert(stack_cnf(unboxed(un_resolved@)) =~= target + stack_cnf(Seq::<LogicNode>::empty()));
        assert(unboxed(res@) =~= Seq::<LogicNode>::empty());
        assert(unboxed(res@) + stack_cnf(unboxed(un_resolved@)) =~= target);
    }
    while un_resolved.len() > 0
        invariant
            forall|i: int| 0 <= i < un_resolved@.len() ==> cnf_flattenable(*#[trigger] un_resolved@[i]),
            unboxed(res@) + stack_cnf(unboxed(un_resolved@)) == target,
        decreases stack_size(unboxed(un_resolved@)),
    {
        let ghost before = unboxed(un_resolved@);
        let ghost done = unboxed(res@);
        let cur_node = un_resolved.pop().unwrap();
        proof {
            assert(unboxed(un_resolved@) =~= before.drop_last());
        }
        match *cur_node {
            LogicNode::And(l, r) => {
                un_resolved.push(l);
                un_resolved.push(r);
                proof {
                    let after = unboxed(un_resolved@);
                    assert(after.drop_last() =~= before.drop_last().push(*l));
                    assert(after.drop_last().drop_last() =~= before.drop_last());
                    assert(after.last() == *r);
                    assert(after.drop_last().last() == *l);
                    assert(stack_cnf(after.drop_last()) == spec_flatten_cnf(*l) + stack_cnf(before.drop_last()));
                    assert(stack_size(after.drop_last()) == size(*l) + stack_size(before.drop_last()));
                    assert(stack_cnf(after) =~= spec_flatten_cnf(*r) + (spec_flatten_cnf(*l)
                        + stack_cnf(before.drop_last())));
                    assert(stack_size(after) == size(*r) + (size(*l) + stack_size(before.drop_last())));
                }
            },
            other => {
                res.push(Box::new(other));
                proof {
                    assert(unboxed(res@) =~= done.push(other));
                    assert(unboxed(res@) + stack_cnf(unboxed(un_resolved@)) =~= done + stack_cnf(before));
                }
            },
        }
    }
    proof {
        assert(unboxed(un_resolved@) =~= Seq::<LogicNode>::empty());
        assert(unboxed(res@) + Seq::<LogicNode>::empty() =~= unboxed(res@));
    }
    res
}

/// Splits a formula along its spine of disjunctions into the list of its disjuncts.
pub fn flatten_dnf(expr: Box<LogicNode>) -> (res: Vec<Box<LogicNode>>)
    requires
        dnf_flattenable(*expr),
    ensures
        unboxed(res@) == spec_flatten_dnf(*expr),
{
    let ghost e0 = *expr;
    let ghost target = spec_flatten_dnf(e0);
    let mut res: Vec<Box<LogicNode>> = Vec::new();
    let mut un_resolved: Vec<Box<LogicNode>> = Vec::new();
    un_resolved.push(expr);
    proof {
        assert(unboxed(un_resolved@).drop_last() =~= Seq::<LogicNode>::empty());
        assert(unboxed(un_resolved@).last() == e0);
        assert(stack_dnf(unboxed(un_resolved@)) =~= target + stack_dnf(Seq::<LogicNode>::empty()));
        assert(unboxed(res@) =~= Seq::<LogicNode>::empty());
        assert(unboxed(res@) + stack_dnf(unboxed(un_resolved@)) =~= target);
    }
    while un_resolved.len() > 0
        invariant
            forall|i: int| 0 <= i < un_resolved@.len() ==> dnf_flattenable(*#[trigger] un_resolved@[i]),
            unboxed(res@) + stack_dnf(unboxed(un_resolved@)) == target,
        decreases stack_size(unboxed(un_resolved@)),
    {
        let ghost before = unboxed(un_resolved@);
        let ghost done = unboxed(res@);
        let cur_node = un_resolved.pop().unwrap();
        proof {
            assert(unboxed(un_resolved@) =~= before.drop_last());
        }
        match *cur_node {
            LogicNode::Or(l, r) => {
                un_resolved.push(l);
                un_resolved.push(r);
                proof {
                    let after = unboxed(un_resolved@);
                    assert(after.drop_last() =~= before.drop_last().push(*l));
                    assert(after.drop_last().drop_last() =~= before.drop_last());
                    assert(after.last() == *r);
                    assert(after.drop_last().last() == *l);
                    assert(stack_dnf(after.drop_last()) == spec_flatten_dnf(*l) + stack_dnf(before.drop_last()));
                    assert(stack_size(after.drop_last()) == size(*l) + stack_size(before.drop_last()));
                    assert(stack_dnf(after) =~= spec_flatten_dnf(*r) + (spec_flatten_dnf(*l)
                        + stack_dnf(before.drop_last())));
                    assert(stack_size(after) == size(*r) + (size(*l) + stack_size(before.drop_last())));
                }
            },
            other => {
                res.push(Box::new(other));
                proof {
                    assert(unboxed(res@) =~= done.push(other));
                    assert(unboxed(res@) + stack_dnf(unboxed(un_resolved@)) =~= done + stack_dnf(before));
                }
            },
        }
    }
    proof {
        assert(unboxed(un_resolved@) =~= Seq::<LogicNode>::empty());
        assert(unboxed(res@) + Seq::<LogicNode>::empty() =~= unboxed(res@));
    }
    res
}

/// An exact copy of a formula.
pub fn copy_node(e: &LogicNode) -> (res: LogicNode)
    ensures
        res == *e,
    decreases *e,
{
    match e {
        LogicNode::And(l, r) => LogicNode::And(Box::new(copy_node(l)), Box::new(copy_node(r))),
        LogicNode::Or(l, r) => LogicNode::Or(Box::new(copy_node(l)), Box::new(copy_node(r))),
        LogicNode::Not(c) => LogicNode::Not(Box::new(copy_node(c))),
        LogicNode::True => LogicNode::True,
        LogicNode::False => LogicNode::False,
        LogicNode::Variable(v) => LogicNode::Variable(v.clone()),
    }
}

/// The disjunctions `Or(x, fr[j])`, in the order of `fr`.
pub open spec fn or_row(x: LogicNode, fr: Seq<LogicNode>) -> Seq<LogicNode> {
    Seq::new(fr.len(), |j: int| LogicNode::Or(Box::new(x), Box::new(fr[j])))
}

/// Every disjunction `Or(fl[i], fr[j])`: `i` runs in the outer loop, `j` in the inner one.
pub open spec fn clause_pairs(fl: Seq<LogicNode>, fr: Seq<LogicNode>) -> Seq<LogicNode>
    decreases fl.len(),
{
    if fl.len() == 0 {
        seq![]
    } else {
        clause_pairs(fl.drop_last(), fr) + or_row(fl.last(), fr)
    }
}

/// Left fold of a sequence into conjunctions, starting from `True`:
/// `And(And(And(True, s[0]), s[1]), ...)`.
pub open spec fn fold_and(s: Seq<LogicNode>) -> LogicNode
    decreases s.len(),
{
    if s.len() == 0 {
        LogicNode::True
    } else {
        LogicNode::And(Box::new(fold_and(s.drop_last())), Box::new(s.last()))
    }
}

/// Every formula has at least one node.
pub proof fn lemma_size_positive(e: LogicNode)
    ensures
        size(e) >= 1,
{
}

/// Negating both operands of a binary node costs as many nodes as negating the node.
pub proof fn lemma_size_of_negated_pair(c: LogicNode)
    ensures
        (c matches LogicNode::And(l, r) ==> size(LogicNode::Not(l)) + size(LogicNode::Not(r))
            == size(LogicNode::Not(Box::new(c)))),
        (c matches LogicNode::Or(l, r) ==> size(LogicNode::Not(l)) + size(LogicNode::Not(r))
            == size(LogicNode::Not(Box::new(c)))),
{
    assert(size(LogicNode::Not(Box::new(c))) == 1 + size(c));
    match c {
        LogicNode::And(l, r) => {
            assert(size(LogicNode::Not(l)) == 1 + size(*l));
            assert(size(LogicNode::Not(r)) == 1 + size(*r));
        },
        LogicNode::Or(l, r) => {
            assert(size(LogicNode::Not(l)) == 1 + size(*l));
            assert(size(LogicNode::Not(r)) == 1 + size(*r));
        },
        _ => {},
    }
}

/// The result of `parse_cnf`, or `None` where it stops on a constant that
/// `flatten_cnf` refuses. The formula is simplified first; conjunctions are
/// converted operand by operand; a disjunction is converted by distributing the
/// conjuncts of one converted operand over those of the other; a negated
/// conjunction or disjunction becomes the disjunction of the negated operands;
/// a double negation yields the inner formula as it stands; negated constants
/// are flipped.
pub open spec fn spec_parse_cnf(e: LogicNode) -> Option<LogicNode>
    decreases size(e), 1nat,
{
    let o = spec_optimize(e);
    proof {
        lemma_optimize_size(e);
    }
    match o {
        LogicNode::And(l, r) => {
            let a = spec_parse_cnf(*l);
            let b = spec_parse_cnf(*r);
            if a is Some && b is Some {
                Some(LogicNode::And(Box::new(a->0), Box::new(b->0)))
            } else {
                None
            }
        },
        LogicNode::Or(l, r) => spec_cnf_or(*l, *r),
        LogicNode::Not(c) => match *c {
            LogicNode::Not(n) => Some(*n),
            LogicNode::And(l, r) => {
                proof {
                    lemma_size_of_negated_pair(*c);
                }
                spec_cnf_or(LogicNode::Not(l), LogicNode::Not(r))
            },
            LogicNode::Or(l, r) => {
                proof {
                    lemma_size_of_negated_pair(*c);
                }
                spec_cnf_or(LogicNode::Not(l), LogicNode::Not(r))
            },
            LogicNode::True => Some(LogicNode::False),
            LogicNode::False => Some(LogicNode::True),
            LogicNode::Variable(_) => Some(o),
        },
        _ => Some(o),
    }
}

/// The conversion of the disjunction of `a` and `b` (see `spec_parse_cnf`).
pub open spec fn spec_cnf_or(a: LogicNode, b: LogicNode) -> Option<LogicNode>
    decreases size(a) + size(b), 0nat,
{
    proof {
        lemma_size_positive(a);
        lemma_size_positive(b);
    }
    let lc = spec_parse_cnf(a);
    let rc = spec_parse_cnf(b);
    if lc is Some && rc is Some && cnf_flattenable(lc->0) && cnf_flattenable(rc->0) {
        Some(
            spec_optimize(
                fold_and(clause_pairs(spec_flatten_cnf(lc->0), spec_flatten_cnf(rc->0))),
            ),
        )
    } else {
        None
    }
}

/// Converts a formula to conjunctive normal form (see `spec_parse_cnf` for what
/// it computes); the formula must be one on which the conversion does not stop.
pub fn parse_cnf(cur_expr: Box<LogicNode>) -> (res: Box<LogicNode>)
    requires
        spec_parse_cnf(*cur_expr) is Some,
    ensures
        spec_parse_cnf(*cur_expr) == Some(*res),
    decreases size(*cur_expr), 1nat,
{
    let ghost e = *cur_expr;
    proof {
        lemma_optimize_size(e);
    }
    let cur = optimize(cur_expr);
    proof {
        if *cur is Not {
            lemma_size_of_negated_pair(*cur->Not_0);
        }
    }
    match *cur {
        LogicNode::And(left_node, rigt_node) => {
            let left_cnf = parse_cnf(left_node);
            let rigt_cnf = parse_cnf(rigt_node);
            Box::new(LogicNode::And(left_cnf, rigt_cnf))
        },
        LogicNode::Or(left_node, rigt_node) => cnf_or(left_node, rigt_node),
        LogicNode::Not(node) => match *node {
            LogicNode::Not(not_node) => not_node,
            LogicNode::And(left, rigt) => cnf_or(
                Box::new(LogicNode::Not(left)),
                Box::new(LogicNode::Not(rigt)),
            ),
            LogicNode::Or(left, rigt) => cnf_or(
                Box::new(LogicNode::Not(left)),
                Box::new(LogicNode::Not(rigt)),
            ),
            LogicNode::True => Box::new(LogicNode::False),
            LogicNode::False => Box::new(LogicNode::True),
            LogicNode::Variable(v) => Box::new(LogicNode::Not(Box::new(LogicNode::Variable(v)))),
        },
        other => Box::new(other),
    }
}

/// Distributes the conjuncts of the converted `left_node` over those of the
/// converted `rigt_node`.
fn cnf_or(left_node: Box<LogicNode>, rigt_node: Box<LogicNode>) -> (res: Box<LogicNode>)
    requires
        spec_cnf_or(*left_node, *rigt_node) is Some,
    ensures
        spec_cnf_or(*left_node, *rigt_node) == Some(*res),
    decreases size(*left_node) + size(*rigt_node), 0nat,
{
    proof {
        lemma_size_positive(*left_node);
        lemma_size_positive(*rigt_node);
    }
    let left_cnf = parse_cnf(left_node);
    let rigt_cnf = parse_cnf(rigt_node);
    let flatten_left = flatten_cnf(left_cnf);
    let flatten_rigt = flatten_cnf(rigt_cnf);
    let ghost fl = unboxed(flatten_left@);
    let ghost fr = unboxed(flatten_rigt@);
    let mut res_vec: Vec<LogicNode> = Vec::new();
    let n_left = flatten_left.len();
    let n_rigt = flatten_rigt.len();
    proof {
        assert(fl.take(0) =~= Seq::<LogicNode>::empty());
        assert(res_vec@ =~= clause_pairs(fl.take(0), fr));
    }
    for i in 0..n_left
        invariant
            n_left == flatten_left@.len(),
            n_rigt == flatten_rigt@.len(),
            fl == unboxed(flatten_left@),
            fr == unboxed(flatten_rigt@),
            res_vec@ == clause_pairs(fl.take(i as int), fr),
    {
        let ghost base = res_vec@;
        proof {
            assert(fr.take(0) =~= Seq::<LogicNode>::empty());
            assert(res_vec@ =~= base + or_row(fl[i as int], fr.take(0)));
        }
        for j in 0..n_rigt
            invariant
                n_left == flatten_left@.len(),
                n_rigt == flatten_rigt@.len(),
                i < n_left,
                fl == unboxed(flatten_left@),
                fr == unboxed(flatten_rigt@),
                res_vec@ == base + or_row(fl[i as int], fr.take(j as int)),
        {
            let left_item = copy_node(&flatten_left[i]);
            let rigt_item = copy_node(&flatten_rigt[j]);
            res_vec.push(LogicNode::Or(Box::new(left_item), Box::new(rigt_item)));
            proof {
                assert(or_row(fl[i as int], fr.take(j + 1)) =~= or_row(fl[i as int], fr.take(
                    j as int,
                )).push(LogicNode::Or(Box::new(fl[i as int]), Box::new(fr[j as int]))));
                assert(res_vec@ =~= base + or_row(fl[i as int], fr.take(j + 1)));
            }
        }
        proof {
            assert(fr.take(n_rigt as int) =~= fr);
            assert(fl.take(i + 1).drop_last() =~= fl.take(i as int));
            assert(fl.take(i + 1).last() == fl[i as int]);
        }
    }
    proof {
        assert(fl.take(n_left as int) =~= fl);
    }
    let mut acc = LogicNode::True;
    let n = res_vec.len();
    proof {
        assert(res_vec@.take(0) =~= Seq::<LogicNode>::empty());
    }
    for k in 0..n
        invariant
            n == res_vec@.len(),
            acc == fold_and(res_vec@.take(k as int)),
    {
        let x = copy_node(&res_vec[k]);
        acc = LogicNode::And(Box::new(acc), Box::new(x));
        proof {
            assert(res_vec@.take(k + 1).drop_last() =~= res_vec@.take(k as int));
        }
    }
    proof {
        assert(res_vec@.take(n as int) =~= res_vec@);
    }
    optimize(Box::new(acc))
}

} // verus!
