use liulang::analyzer::{expressionize, CtxNode, Node};
use liulang::interpreter::{flatten, resolve_variable, EvalError};
use liulang::parser::{tokenize, Keyword, Token, Value};

fn run_program(src: &str) -> Result<Vec<Value>, EvalError> {
    let tokens = tokenize(src, 0);
    let mut tree = expressionize(&tokens).expect("the stream should build");
    tree.evaluate()
}

fn num(n: i64) -> Value {
    Value::Int(n)
}

fn var_ident(name: &str) -> Value {
    Value::Variable(Box::new(Value::Identifier(String::from(name))))
}

#[test]
fn addition_folds_from_zero() {
    assert_eq!(run_program("(+ 1 2 3)"), Ok(vec![num(6)]));
    assert_eq!(run_program("(+)"), Ok(vec![num(0)]));
}

#[test]
fn subtraction_folds_left_to_right() {
    assert_eq!(run_program("(- 10 3 2)"), Ok(vec![num(5)]));
    assert_eq!(run_program("(- 1 2 3)"), Ok(vec![num(-4)]));
}

#[test]
fn a_single_minus_operand_passes_through() {
    assert_eq!(run_program("(- 5)"), Ok(vec![num(5)]));
}

#[test]
fn minus_without_operands_fails() {
    assert_eq!(run_program("(-)"), Err(EvalError::MissingOperand));
}

#[test]
fn nested_groups_evaluate_inside_the_outer_fold() {
    // The inner group's root expression is also attached to the inner
    // scope, so the walk over the scope tree yields its value once more.
    assert_eq!(run_program("(+ 1 (- 2 3))"), Ok(vec![num(0), num(-1)]));
}

#[test]
fn definitions_are_visible_to_later_groups() {
    assert_eq!(
        run_program("(def x 5) (+ x 1)"),
        Ok(vec![var_ident("x"), num(6)])
    );
}

#[test]
fn inner_definition_shadows_for_the_inner_group() {
    // The inner def binds x in the scope enclosing the inner def-group,
    // which is exactly where the inner lookup starts: it sees 10, not 5.
    assert_eq!(
        run_program("(def x 5) ((def x 10) (+ x 1))"),
        Ok(vec![var_ident("x"), var_ident("x"), num(11)])
    );
}

#[test]
fn unbound_identifier_fails() {
    assert_eq!(run_program("(+ y 1)"), Err(EvalError::UnboundIdentifier));
}

#[test]
fn def_returns_the_wrapped_identifier() {
    let vals = run_program("(def x 5)").unwrap();
    assert_eq!(vals, vec![var_ident("x")]);
    // Distinguishable from the bound value and from the identifier alone.
    assert_ne!(vals[0], num(5));
    assert_ne!(vals[0], Value::Identifier(String::from("x")));
    // Using x instead resolves to the bound value.
    assert_eq!(
        run_program("(def x 5) (+ x 0)"),
        Ok(vec![var_ident("x"), num(5)])
    );
}

#[test]
fn redefinition_replaces_the_binding() {
    assert_eq!(
        run_program("(def x 5) (def x 7) (+ x 0)"),
        Ok(vec![var_ident("x"), var_ident("x"), num(7)])
    );
}

#[test]
fn def_with_one_child_is_malformed() {
    assert_eq!(run_program("(def x)"), Err(EvalError::MalformedDef));
}

#[test]
fn def_with_three_children_is_malformed() {
    assert_eq!(run_program("(def x 5 6)"), Err(EvalError::MalformedDef));
}

#[test]
fn def_of_a_non_identifier_is_malformed() {
    assert_eq!(run_program("(def 5 6)"), Err(EvalError::MalformedDef));
}

#[test]
fn non_numeric_operands_fail() {
    assert_eq!(
        run_program("(+ (def x 5) 1)"),
        Err(EvalError::NotANumber)
    );
}

#[test]
fn overflow_is_an_error_not_a_wrap() {
    assert_eq!(
        run_program("(+ 9223372036854775807 1)"),
        Err(EvalError::Overflow)
    );
    assert_eq!(
        run_program("(- -9223372036854775808 1)"),
        Err(EvalError::Overflow)
    );
    assert_eq!(
        run_program("(+ 9223372036854775806 1)"),
        Ok(vec![num(i64::MAX)])
    );
}

#[test]
fn variable_values_evaluate_to_themselves() {
    // A node that already holds a wrapped variable is returned unchanged:
    // no resolution happens, and evaluating the result again would change
    // nothing.
    let wrapped = Value::Variable(Box::new(Value::Int(5)));
    let nodes = vec![Node {
        token: Token::Value(wrapped.deep_clone()),
        parent: None,
        children: vec![],
        scope: 0,
    }];
    let mut scopes = vec![CtxNode {
        id: 0,
        bindings: vec![],
        parent: None,
        children: vec![],
        expression: None,
    }];
    assert_eq!(flatten(&nodes, &mut scopes, 0), Ok(wrapped));
    assert_eq!(scopes[0].bindings, vec![]);
}

#[test]
fn def_in_the_root_scope_is_an_orphan() {
    // A def node whose own scope is the root has no enclosing scope to
    // bind into.
    let nodes = vec![
        Node {
            token: Token::Keyword(Keyword::Def),
            parent: None,
            children: vec![1, 2],
            scope: 0,
        },
        Node {
            token: Token::Value(Value::Identifier(String::from("x"))),
            parent: Some(0),
            children: vec![],
            scope: 0,
        },
        Node {
            token: Token::Value(Value::Int(5)),
            parent: Some(0),
            children: vec![],
            scope: 0,
        },
    ];
    let mut scopes = vec![CtxNode {
        id: 0,
        bindings: vec![],
        parent: None,
        children: vec![],
        expression: None,
    }];
    assert_eq!(flatten(&nodes, &mut scopes, 0), Err(EvalError::OrphanScope));
}

#[test]
fn resolution_walks_the_chain_from_the_start_scope() {
    let scopes = vec![
        CtxNode {
            id: 0,
            bindings: vec![(String::from("x"), Value::Int(1))],
            parent: None,
            children: vec![1],
            expression: None,
        },
        CtxNode {
            id: 1,
            bindings: vec![(String::from("x"), Value::Int(2))],
            parent: Some(0),
            children: vec![],
            expression: None,
        },
    ];
    // The walk checks the start scope itself, then its ancestors.
    assert_eq!(
        resolve_variable(&scopes, Some(1), &String::from("x")),
        Some(Value::Int(2))
    );
    assert_eq!(
        resolve_variable(&scopes, Some(0), &String::from("x")),
        Some(Value::Int(1))
    );
    assert_eq!(resolve_variable(&scopes, None, &String::from("x")), None);
    assert_eq!(
        resolve_variable(&scopes, Some(1), &String::from("y")),
        None
    );
}
