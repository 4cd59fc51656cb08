use quote::ToTokens;
use monadicast::passes::replace_while_loop::{
    literal_bound, AssignedValue, AssignmentShape, LoopBound, LoopRewrite, LoopStatement, WhileLoopReplacer,
};

fn local(binding: Option<&str>, literal: Option<&str>) -> LoopStatement {
    LoopStatement::Local {
        binding: binding.map(|b| b.to_string()),
        cast_literal: literal.map(|l| l.to_string()),
    }
}

fn step(target: &str, base: &str) -> Option<AssignmentShape> {
    Some(AssignmentShape {
        target: Some(target.to_string()),
        value: AssignedValue::PathPlusLiteral(base.to_string()),
    })
}

#[test]
fn typed_cast_literals_are_recorded() {
    let mut r = WhileLoopReplacer::default();
    assert!(matches!(r.visit_stmt(&local(Some("i"), Some("0"))), LoopRewrite::Leave));
    assert_eq!(r.initial_value(&"i".to_string()), Some(0));
    r.visit_stmt(&local(Some("i"), Some("5")));
    assert_eq!(r.initial_value(&"i".to_string()), Some(5));
    r.visit_stmt(&local(Some("j"), None));
    assert_eq!(r.initial_value(&"j".to_string()), None);
}

#[test]
fn untyped_bindings_are_recorded_under_the_empty_name() {
    let mut r = WhileLoopReplacer::default();
    r.visit_stmt(&local(None, Some("3")));
    assert_eq!(r.initial_value(&String::new()), Some(3));
}

#[test]
fn counting_loop_becomes_a_for_loop() {
    let mut r = WhileLoopReplacer::default();
    r.visit_stmt(&local(Some("i"), Some("1")));
    let body = vec![None, step("i", "i"), step("j", "j")];
    let rewrite = r.visit_stmt(&LoopStatement::While {
        condition: Some(("i".to_string(), "n".to_string())),
        body,
    });
    match rewrite {
        LoopRewrite::ForLoop { var, lower, upper, keep } => {
            assert_eq!(var, "i");
            assert_eq!(lower, 1);
            assert!(matches!(upper, LoopBound::Variable(ref u) if u == "n"));
            assert_eq!(keep, vec![true, false, true]);
        }
        _ => panic!("expected a for loop"),
    }
}

#[test]
fn recorded_bound_becomes_a_literal() {
    let mut r = WhileLoopReplacer::default();
    r.visit_stmt(&local(Some("front"), Some("0")));
    r.visit_stmt(&local(Some("rear"), Some("0")));
    let rewrite = r.visit_stmt(&LoopStatement::While {
        condition: Some(("front".to_string(), "rear".to_string())),
        body: vec![],
    });
    assert!(matches!(
        rewrite,
        LoopRewrite::ForLoop { lower: 0, upper: LoopBound::Literal(0), .. }
    ));
}

#[test]
fn other_loops_and_statements_are_not_lowered() {
    let mut r = WhileLoopReplacer::default();
    let unknown = r.visit_stmt(&LoopStatement::While {
        condition: Some(("k".to_string(), "n".to_string())),
        body: vec![],
    });
    assert!(matches!(unknown, LoopRewrite::Visit));
    let no_condition = r.visit_stmt(&LoopStatement::While { condition: None, body: vec![] });
    assert!(matches!(no_condition, LoopRewrite::Visit));
    assert!(matches!(r.visit_stmt(&LoopStatement::Other), LoopRewrite::Visit));
}

#[test]
fn only_upward_steps_of_the_loop_variable_are_increments() {
    let r = WhileLoopReplacer::default();
    let i = "i".to_string();
    assert!(r.is_increment_stmt(&step("i", "i"), &i));
    assert!(!r.is_increment_stmt(&step("i", "j"), &i));
    assert!(!r.is_increment_stmt(&step("j", "i"), &i));
    assert!(!r.is_increment_stmt(&Some(AssignmentShape { target: Some(i.clone()), value: AssignedValue::Other }), &i));
    assert!(!r.is_increment_stmt(&Some(AssignmentShape { target: None, value: AssignedValue::PlusLiteral }), &i));
    assert!(!r.is_increment_stmt(&None, &i));
}

#[test]
fn literal_bounds_are_decimal_expressions() {
    assert_eq!(literal_bound(10).unwrap().to_token_stream().to_string(), "10");
    assert_eq!(literal_bound(0).unwrap().to_token_stream().to_string(), "0");
    assert_eq!(literal_bound(-3).unwrap().to_token_stream().to_string(), "- 3");
}

#[test]
fn literal_bound_is_the_parse_of_its_decimal_text() {
    let expected: syn::Expr = syn::parse_str("42").unwrap();
    assert_eq!(literal_bound(42), Some(expected));
}

#[test]
fn compound_addition_is_an_increment() {
    let r = WhileLoopReplacer::default();
    let i = "i".to_string();
    let plus = Some(AssignmentShape { target: Some(i.clone()), value: AssignedValue::PlusLiteral });
    assert!(r.is_increment_stmt(&plus, &i));
    let other = Some(AssignmentShape { target: Some("j".to_string()), value: AssignedValue::PlusLiteral });
    assert!(!r.is_increment_stmt(&other, &i));
}

#[test]
fn decrement_is_not_an_increment() {
    let r = WhileLoopReplacer::default();
    let i = "i".to_string();
    let minus = Some(AssignmentShape { target: Some(i.clone()), value: AssignedValue::Other });
    assert!(!r.is_increment_stmt(&minus, &i));
}
