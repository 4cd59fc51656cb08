use monadicast::passes::remove_dangling_identifiers::{IdentifierExpressionRemover, StatementShape};

fn ident() -> StatementShape {
    StatementShape::PathExpression {
        semicolon: true,
        attributes: 0,
        qualified_self: false,
        leading_colon: false,
        segments: 1,
        first_segment_has_arguments: false,
    }
}

#[test]
fn lone_identifiers_are_dangling() {
    let remover = IdentifierExpressionRemover::default();
    assert!(remover.is_dangling_identifier(&ident()));
    assert!(!remover.is_dangling_identifier(&StatementShape::Other));
}

#[test]
fn paths_that_are_more_than_an_identifier_stay() {
    let remover = IdentifierExpressionRemover::default();
    let cases = [
        StatementShape::PathExpression { semicolon: true, attributes: 1, qualified_self: false, leading_colon: false, segments: 1, first_segment_has_arguments: false },
        StatementShape::PathExpression { semicolon: true, attributes: 0, qualified_self: true, leading_colon: false, segments: 1, first_segment_has_arguments: false },
        StatementShape::PathExpression { semicolon: true, attributes: 0, qualified_self: false, leading_colon: true, segments: 1, first_segment_has_arguments: false },
        StatementShape::PathExpression { semicolon: true, attributes: 0, qualified_self: false, leading_colon: false, segments: 2, first_segment_has_arguments: false },
        StatementShape::PathExpression { semicolon: true, attributes: 0, qualified_self: false, leading_colon: false, segments: 1, first_segment_has_arguments: true },
    ];
    for shape in &cases {
        assert!(!remover.is_dangling_identifier(shape));
    }
}

#[test]
fn dangling_statements_are_removed_in_order() {
    let remover = IdentifierExpressionRemover::default();
    let stmts = vec!["i += 1;", "i;", "f(i);", "x", "y;"];
    let shapes = vec![StatementShape::Other, ident(), StatementShape::Other, ident(), ident()];
    let kept = remover.remove_dangling(stmts, &shapes);
    assert_eq!(kept, vec!["i += 1;", "f(i);"]);
}

#[test]
fn removal_twice_removes_nothing_more() {
    let remover = IdentifierExpressionRemover::default();
    let stmts = vec![1, 2, 3, 4];
    let shapes = vec![ident(), StatementShape::Other, ident(), StatementShape::Other];
    let once = remover.remove_dangling(stmts, &shapes);
    assert_eq!(once, vec![2, 4]);
    let again = remover.remove_dangling(once.clone(), &vec![StatementShape::Other, StatementShape::Other]);
    assert_eq!(again, once);
}

#[test]
fn empty_block_stays_empty() {
    let remover = IdentifierExpressionRemover::default();
    let kept: Vec<u8> = remover.remove_dangling(Vec::new(), &Vec::new());
    assert!(kept.is_empty());
}

#[test]
fn trailing_identifier_is_kept() {
    let remover = IdentifierExpressionRemover::default();
    let tail = StatementShape::PathExpression {
        semicolon: false,
        attributes: 0,
        qualified_self: false,
        leading_colon: false,
        segments: 1,
        first_segment_has_arguments: false,
    };
    assert!(!remover.is_dangling_identifier(&tail));
    let stmts = vec!["let y = 1;", "y"];
    let kept = remover.remove_dangling(stmts.clone(), &vec![StatementShape::Other, tail]);
    assert_eq!(kept, stmts);
}
