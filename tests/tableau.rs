use semantic_tableau::expression::{Expression, ParseError, Rule};
use semantic_tableau::semantic_table::SemanticTable;
use semantic_tableau::tableau::{decide, record, SignedFormula, Verdict};
use semantic_tableau::variables::VariableSet;

fn formula(text: &str) -> Expression {
    Expression::parse(text).unwrap().0
}

fn asserted(text: &str, positive: bool) -> SignedFormula {
    SignedFormula { formula: formula(text), positive }
}

fn value(model: &[(char, bool)], c: char) -> bool {
    model.iter().any(|&(d, p)| d == c && p)
}

fn sorted_symbols(vars: &VariableSet) -> Vec<char> {
    let mut v = vars.symbols().clone();
    v.sort();
    v
}

#[test]
fn conjunction_of_two_literals_is_satisfiable() {
    match decide(vec![asserted("&ab", true)]) {
        Verdict::Satisfiable(m) => {
            assert!(value(&m, 'a'));
            assert!(value(&m, 'b'));
            assert!(m.contains(&('a', true)));
            assert!(m.contains(&('b', true)));
        }
        Verdict::Unsatisfiable => panic!("expected a model"),
    }
}

#[test]
fn contradiction_is_unsatisfiable() {
    assert!(matches!(decide(vec![asserted("&a-a", true)]), Verdict::Unsatisfiable));
}

#[test]
fn excluded_middle_is_satisfiable() {
    match decide(vec![asserted("|a-a", true)]) {
        Verdict::Satisfiable(m) => {
            let f = formula("|a-a");
            assert!(eval(&f, &m));
        }
        Verdict::Unsatisfiable => panic!("expected a model"),
    }
}

#[test]
fn mutual_implication_and_not_a_entail_not_b() {
    let table = SemanticTable::parse_set(&vec!["|-ab", "|a-b", "-a"]).unwrap();
    assert!(table.models(formula("-b")));
    let fs = vec![
        asserted("|-ab", true),
        asserted("|a-b", true),
        asserted("-a", true),
        asserted("b", true),
    ];
    assert!(matches!(decide(fs), Verdict::Unsatisfiable));
}

#[test]
fn single_premise_does_not_entail_other_variable() {
    let table = SemanticTable::parse_set(&vec!["a"]).unwrap();
    assert!(!table.models(formula("b")));
    match decide(vec![asserted("a", true), asserted("-b", true)]) {
        Verdict::Satisfiable(m) => {
            assert!(m.contains(&('a', true)));
            assert!(m.contains(&('b', false)));
            assert_eq!(m.len(), 2);
        }
        Verdict::Unsatisfiable => panic!("expected a model"),
    }
    match table.refute(formula("b")) {
        Verdict::Satisfiable(m) => {
            assert!(value(&m, 'a'));
            assert!(!value(&m, 'b'));
        }
        Verdict::Unsatisfiable => panic!("expected a counter-model"),
    }
}

fn eval(e: &Expression, m: &[(char, bool)]) -> bool {
    match e {
        Expression::Literal(c) => value(m, *c),
        Expression::No(s) => !eval(s, m),
        Expression::And(l, r) => eval(l, m) && eval(r, m),
        Expression::Or(l, r) => eval(l, m) || eval(r, m),
    }
}

#[test]
fn reported_models_satisfy_their_formulas() {
    for text in ["&|ab-a", "-&ab", "|&a-b&-ab", "&-|ab-c", "--a", "&|-ab|-ba"] {
        match decide(vec![asserted(text, true)]) {
            Verdict::Satisfiable(m) => assert!(eval(&formula(text), &m), "{text}"),
            Verdict::Unsatisfiable => panic!("{text} is satisfiable"),
        }
    }
}

#[test]
fn unsatisfiable_formulas_are_refuted() {
    for text in ["&a-a", "-|a-a", "&&|ab-a-b", "&-a--a", "&|ab&-a-b"] {
        assert!(matches!(decide(vec![asserted(text, true)]), Verdict::Unsatisfiable), "{text}");
    }
}

#[test]
fn false_sign_is_respected() {
    match decide(vec![asserted("&ab", false)]) {
        Verdict::Satisfiable(m) => assert!(!eval(&formula("&ab"), &m)),
        Verdict::Unsatisfiable => panic!("a conjunction can be false"),
    }
    assert!(matches!(decide(vec![asserted("|a-a", false)]), Verdict::Unsatisfiable));
}

#[test]
fn empty_input_is_satisfiable() {
    match decide(vec![]) {
        Verdict::Satisfiable(m) => assert!(m.is_empty()),
        Verdict::Unsatisfiable => panic!("nothing to refute"),
    }
}

#[test]
fn parse_builds_tree_and_variables() {
    let (e, vars) = Expression::parse("&|ab-c").unwrap();
    assert_eq!(e.to_string(), "((a) | (b)) & (-(c))");
    assert_eq!(sorted_symbols(&vars), vec!['a', 'b', 'c']);
    assert_eq!(vars.len(), 3);
    assert!(vars.contains('b'));
    assert!(!vars.contains('d'));
}

#[test]
fn parse_collapses_repeated_variables() {
    let (_, vars) = Expression::parse("&a|a-a").unwrap();
    assert_eq!(sorted_symbols(&vars), vec!['a']);
}

#[test]
fn parse_ignores_text_after_formula() {
    let (e, vars) = Expression::parse("-ab").unwrap();
    assert_eq!(e.to_prefix(), "-a");
    assert_eq!(sorted_symbols(&vars), vec!['a']);
}

#[test]
fn parse_reports_truncated_input() {
    assert_eq!(Expression::parse("").err(), Some(ParseError::Truncated));
    assert_eq!(Expression::parse("&a").err(), Some(ParseError::Truncated));
    assert_eq!(Expression::parse("-").err(), Some(ParseError::Truncated));
    assert_eq!(Expression::parse("|&ab").err(), Some(ParseError::Truncated));
}

#[test]
fn prefix_rendering_round_trips() {
    let built = Expression::And(
        Box::new(Expression::No(Box::new(Expression::Literal('p')))),
        Box::new(Expression::Or(
            Box::new(Expression::Literal('q')),
            Box::new(Expression::Literal('p')),
        )),
    );
    let text = built.to_prefix();
    assert_eq!(text, "&-p|qp");
    let (parsed, vars) = Expression::parse(&text).unwrap();
    assert_eq!(parsed.to_prefix(), text);
    assert_eq!(parsed.to_string(), built.to_string());
    assert_eq!(sorted_symbols(&vars), vec!['p', 'q']);
}

#[test]
fn infix_rendering() {
    assert_eq!(formula("a").to_string(), "a");
    assert_eq!(formula("-a").to_string(), "-(a)");
    assert_eq!(formula("|a&bc").to_string(), "(a) | ((b) & (c))");
}

#[test]
fn rules_classify_connectives() {
    assert_eq!(formula("&ab").rule(), Some(Rule::Alpha));
    assert_eq!(formula("|ab").rule(), Some(Rule::Beta));
    assert_eq!(formula("a").rule(), None);
    assert_eq!(formula("-&ab").rule(), None);
}

#[test]
fn record_closes_on_opposite_literal() {
    let mut cs = vec![('a', true)];
    assert!(!record(&mut cs, 'b', false));
    assert_eq!(cs, vec![('a', true), ('b', false)]);
    assert!(!record(&mut cs, 'a', true));
    assert_eq!(cs, vec![('a', true), ('b', false)]);
    assert!(record(&mut cs, 'a', false));
    assert_eq!(cs, vec![('a', true), ('b', false)]);
}

#[test]
fn parse_set_keeps_order_and_unions_variables() {
    let table = SemanticTable::parse_set(&vec!["|-ab", "c", "&ad"]).unwrap();
    let shown: Vec<String> = table.expressions().iter().map(|e| e.to_string()).collect();
    assert_eq!(shown, vec!["(-(a)) | (b)", "c", "(a) & (d)"]);
    let vars = table.variables();
    assert_eq!(sorted_symbols(&vars), vec!['a', 'b', 'c', 'd']);
}

#[test]
fn parse_set_rejects_truncated_premise() {
    assert_eq!(SemanticTable::parse_set(&vec!["a", "&b"]).err().map(|_| ()), Some(()));
}

#[test]
fn entailment_holds_for_tautology_without_premises() {
    let table = SemanticTable::parse_set(&vec![]).unwrap();
    assert!(table.models(formula("|a-a")));
    assert!(!table.models(formula("a")));
}

#[test]
fn variable_set_extend_unions() {
    let mut x = VariableSet::new();
    assert!(x.insert('a'));
    assert!(!x.insert('a'));
    let mut y = VariableSet::new();
    y.insert('b');
    y.insert('a');
    x.extend(&y);
    assert_eq!(x.len(), 2);
    assert_eq!(sorted_symbols(&x), vec!['a', 'b']);
}

#[test]
fn parse_set_renders_premises_in_order() {
    let table = SemanticTable::parse_set(&vec!["|-ab", "|a-b", "&ab"]).unwrap();
    let shown: Vec<String> = table.expressions().iter().map(|e| e.to_string()).collect();
    assert_eq!(shown, vec!["(-(a)) | (b)", "(a) | (-(b))", "(a) & (b)"]);
    assert_eq!(sorted_symbols(&table.variables()), vec!['a', 'b']);
}

#[test]
fn parse_set_keeps_duplicate_premises() {
    let table = SemanticTable::parse_set(&vec!["a", "a", "-b"]).unwrap();
    assert_eq!(table.expressions().len(), 3);
    assert_eq!(table.expressions()[2].to_prefix(), "-b");
    assert_eq!(sorted_symbols(&table.variables()), vec!['a', 'b']);
}

#[test]
fn conjunction_premise_entails_its_conjuncts() {
    let table = SemanticTable::parse_set(&vec!["&ab"]).unwrap();
    assert!(!table.models(formula("&a-a")));
    assert!(table.models(formula("a")));
    assert!(table.models(formula("b")));
}

#[test]
fn contradictory_premise_entails_anything() {
    let table = SemanticTable::parse_set(&vec!["&a-a"]).unwrap();
    assert!(table.models(formula("b")));
    let none = SemanticTable::parse_set(&vec![]).unwrap();
    assert!(none.models(formula("-&a-a")));
}

#[test]
fn more_premises_keep_entailment() {
    let small = SemanticTable::parse_set(&vec!["&ab"]).unwrap();
    let large = SemanticTable::parse_set(&vec!["&ab", "|cd"]).unwrap();
    assert!(small.models(formula("a")));
    assert!(large.models(formula("a")));
}

#[test]
fn literal_premises_close_on_opposite_values() {
    let table = SemanticTable::parse_set(&vec!["a", "-b"]).unwrap();
    assert!(table.models(formula("-b")));
    assert!(table.models(formula("a")));
    assert!(!table.models(formula("c")));
    assert!(!table.models(formula("-a")));
}
