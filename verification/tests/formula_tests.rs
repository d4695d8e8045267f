use json2model::formula::{parse_formula, parser_text};
use json2model::logic::{copy_node, flatten_cnf, flatten_dnf, optimize, parse_cnf, LogicNode};
use json2model::normal_form::is_constant_free;

fn var(name: &str) -> LogicNode {
    LogicNode::Variable(name.to_string())
}

fn and(l: LogicNode, r: LogicNode) -> LogicNode {
    LogicNode::And(Box::new(l), Box::new(r))
}

fn or(l: LogicNode, r: LogicNode) -> LogicNode {
    LogicNode::Or(Box::new(l), Box::new(r))
}

fn not(c: LogicNode) -> LogicNode {
    LogicNode::Not(Box::new(c))
}

fn eval(e: &LogicNode, env: &dyn Fn(&str) -> bool) -> bool {
    match e {
        LogicNode::And(l, r) => eval(l, env) && eval(r, env),
        LogicNode::Or(l, r) => eval(l, env) || eval(r, env),
        LogicNode::Not(c) => !eval(c, env),
        LogicNode::True => true,
        LogicNode::False => false,
        LogicNode::Variable(v) => env(v),
    }
}

fn is_literal(e: &LogicNode) -> bool {
    match e {
        LogicNode::Not(c) => matches!(**c, LogicNode::Variable(_)),
        LogicNode::And(_, _) | LogicNode::Or(_, _) => false,
        _ => true,
    }
}

fn is_clause(e: &LogicNode) -> bool {
    match e {
        LogicNode::Or(l, r) => is_clause(l) && is_clause(r),
        _ => is_literal(e),
    }
}

fn is_cnf(e: &LogicNode) -> bool {
    match e {
        LogicNode::And(l, r) => is_cnf(l) && is_cnf(r),
        _ => is_clause(e),
    }
}

fn all_assignments(names: &[&str]) -> Vec<Vec<(String, bool)>> {
    let mut out = vec![];
    for bits in 0..(1u32 << names.len()) {
        out.push(
            names
                .iter()
                .enumerate()
                .map(|(i, n)| (n.to_string(), bits & (1 << i) != 0))
                .collect(),
        );
    }
    out
}

fn agree(a: &LogicNode, b: &LogicNode, names: &[&str]) -> bool {
    all_assignments(names).iter().all(|asg| {
        let env = |v: &str| asg.iter().find(|(n, _)| n == v).map(|(_, b)| *b).unwrap_or(false);
        eval(a, &env) == eval(b, &env)
    })
}

#[test]
fn test_parse() {
    let p = parse_formula("A&&(B||(D&&E))");
    println!("{:?}", p.as_ref().unwrap());
    let v = parse_cnf(Box::new(p.unwrap()));
    println!("{:?}", *v);
}

#[test]
fn parse_formula_reads_operators_and_names() {
    let p = parse_formula("A&&(B||(D&&E))").unwrap();
    assert_eq!(p, and(var("A"), or(var("B"), and(var("D"), var("E")))));
    let q = parse_formula("!A && B_1 || C").unwrap();
    assert_eq!(q, and(not(var("A")), or(var("B_1"), var("C"))));
    let r = parse_formula("  FOO  ").unwrap();
    assert_eq!(r, var("FOO"));
}

#[test]
fn parse_formula_rejects_empty_and_unsupported_text() {
    assert_eq!(parse_formula(""), None);
    assert_eq!(parse_formula("A=B"), None);
    assert_eq!(parse_formula("[A]"), None);
    assert_eq!(parse_formula("MY_OPTION"), Some(var("MY_OPTION")));
    assert_eq!(parse_formula("my_option"), None);
    assert_eq!(parse_formula("A && y"), None);
    assert_eq!(parse_formula("A &&"), None);
    assert_eq!(parse_formula("(A"), None);
}

#[test]
fn test_parse_cnf_of_the_sample() {
    let p = parse_formula("A&&(B||(D&&E))").unwrap();
    let v = parse_cnf(Box::new(copy_node(&p)));
    assert_eq!(*v, and(var("A"), and(or(var("B"), var("E")), or(var("B"), var("D")))));
    assert!(is_cnf(&v));
    assert!(agree(&p, &v, &["A", "B", "D", "E"]));
}

#[test]
fn optimize_drops_neutral_constants() {
    let e = and(LogicNode::True, var("X"));
    assert_eq!(*optimize(Box::new(e)), var("X"));
    let e = or(var("X"), LogicNode::False);
    assert_eq!(*optimize(Box::new(e)), var("X"));
    let e = and(or(LogicNode::False, var("A")), and(var("B"), LogicNode::True));
    assert_eq!(*optimize(Box::new(e)), and(var("A"), var("B")));
    // the kept operand is not simplified again
    let e = and(LogicNode::True, and(LogicNode::True, var("X")));
    assert_eq!(*optimize(Box::new(e)), and(LogicNode::True, var("X")));
    let e = not(and(LogicNode::True, var("X")));
    assert_eq!(*optimize(Box::new(e)), not(and(LogicNode::True, var("X"))));
}

#[test]
fn optimize_keeps_meaning() {
    let e = or(and(LogicNode::True, var("A")), and(var("B"), or(LogicNode::False, var("A"))));
    let o = optimize(Box::new(copy_node(&e)));
    assert!(agree(&e, &o, &["A", "B"]));
}

#[test]
fn flatten_cnf_lists_conjuncts_right_to_left() {
    let e = and(and(var("A"), or(var("B"), var("C"))), not(var("D")));
    let items: Vec<LogicNode> = flatten_cnf(Box::new(e)).into_iter().map(|b| *b).collect();
    assert_eq!(items, vec![not(var("D")), or(var("B"), var("C")), var("A")]);
    let single: Vec<LogicNode> = flatten_cnf(Box::new(var("A"))).into_iter().map(|b| *b).collect();
    assert_eq!(single, vec![var("A")]);
}

#[test]
fn flatten_dnf_lists_disjuncts_right_to_left() {
    let e = or(or(var("A"), not(var("B"))), var("C"));
    let items: Vec<LogicNode> = flatten_dnf(Box::new(e)).into_iter().map(|b| *b).collect();
    assert_eq!(items, vec![var("C"), not(var("B")), var("A")]);
}

#[test]
fn flatten_cnf_meaning_on_values() {
    let e = and(or(var("A"), var("B")), and(var("C"), not(var("A"))));
    let items: Vec<LogicNode> = flatten_cnf(Box::new(copy_node(&e))).into_iter().map(|b| *b).collect();
    for asg in all_assignments(&["A", "B", "C"]) {
        let env = |v: &str| asg.iter().find(|(n, _)| n == v).map(|(_, b)| *b).unwrap();
        assert_eq!(eval(&e, &env), items.iter().all(|i| eval(i, &env)));
    }
}

#[test]
fn parse_cnf_distributes_disjunction() {
    let e = or(and(var("A"), var("B")), var("C"));
    let v = parse_cnf(Box::new(copy_node(&e)));
    assert_eq!(*v, and(or(var("B"), var("C")), or(var("A"), var("C"))));
    assert!(is_cnf(&v));
    assert!(agree(&e, &v, &["A", "B", "C"]));
}

#[test]
fn parse_cnf_negations() {
    assert_eq!(*parse_cnf(Box::new(not(not(var("A"))))), var("A"));
    assert_eq!(*parse_cnf(Box::new(not(LogicNode::True))), LogicNode::False);
    assert_eq!(*parse_cnf(Box::new(not(LogicNode::False))), LogicNode::True);
    assert_eq!(*parse_cnf(Box::new(not(var("A")))), not(var("A")));
    let e = not(and(var("A"), var("B")));
    let v = parse_cnf(Box::new(copy_node(&e)));
    assert_eq!(*v, or(not(var("A")), not(var("B"))));
    assert!(agree(&e, &v, &["A", "B"]));
    // a negated disjunction becomes the disjunction of the negations
    let e = not(or(var("A"), var("B")));
    let v = parse_cnf(Box::new(copy_node(&e)));
    assert_eq!(*v, or(not(var("A")), not(var("B"))));
    assert!(!agree(&e, &v, &["A", "B"]));
}

#[test]
fn parse_cnf_keeps_meaning_on_ready_formulas() {
    let e = and(or(var("A"), and(var("B"), not(var("C")))), not(and(var("D"), and(var("A"), var("C")))));
    let v = parse_cnf(Box::new(copy_node(&e)));
    assert!(is_cnf(&v));
    assert!(agree(&e, &v, &["A", "B", "C", "D"]));
}

#[test]
fn constant_free_check() {
    assert!(is_constant_free(&and(var("A"), not(var("B")))));
    assert!(!is_constant_free(&or(var("A"), LogicNode::True)));
    assert!(!is_constant_free(&not(LogicNode::False)));
}

#[test]
fn copy_node_is_equal() {
    let e = and(or(var("A"), LogicNode::True), not(var("B")));
    assert_eq!(copy_node(&e), e);
}

#[test]
fn parse_cnf_leaves_constant_free_normal_forms_unchanged() {
    let e = and(or(var("A"), not(var("B"))), and(var("C"), or(not(var("D")), or(var("E"), var("A")))));
    assert!(is_cnf(&e));
    assert_eq!(*parse_cnf(Box::new(copy_node(&e))), e);
    assert_eq!(*parse_cnf(Box::new(or(var("A"), var("B")))), or(var("A"), var("B")));
    assert_eq!(*parse_cnf(Box::new(var("A"))), var("A"));
    // with a constant the formula may change: `A || false` is simplified to `A`
    assert_eq!(*parse_cnf(Box::new(or(var("A"), LogicNode::False))), var("A"));
}

#[test]
fn parse_cnf_twice_is_parse_cnf_once() {
    let e = or(and(var("A"), var("B")), and(var("C"), not(var("D"))));
    let once = parse_cnf(Box::new(copy_node(&e)));
    let twice = parse_cnf(Box::new(copy_node(&once)));
    assert!(is_cnf(&once));
    assert_eq!(twice, once);
}

#[test]
fn negated_disjunction_comes_out_in_normal_form() {
    let e = not(or(and(var("A"), var("B")), var("C")));
    let v = parse_cnf(Box::new(copy_node(&e)));
    assert!(is_cnf(&v));
}

#[test]
fn parser_text_brackets_names_and_rewrites_operators() {
    let text: String = parser_text("!A && b").into_iter().collect();
    assert_eq!(text, "~[A]&[b]");
    let text: String = parser_text("X_1 || (Y2&&!Z)").into_iter().collect();
    assert_eq!(text, "[X_1]|([Y2]&~[Z])");
}
