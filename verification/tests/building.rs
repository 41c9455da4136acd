use liulang::analyzer::{expressionize, BuildError, ScopeTree};
use liulang::parser::{tokenize, Operator, Token, TokenData, Value};

fn build(src: &str) -> Result<ScopeTree, BuildError> {
    expressionize(&tokenize(src, 0))
}

#[test]
fn empty_stream_builds_an_empty_tree() {
    let tree = build("").unwrap();
    assert_eq!(tree.nodes.len(), 0);
    assert_eq!(tree.scopes.len(), 1);
    assert_eq!(tree.scopes[0].id, 0);
    assert_eq!(tree.scopes[0].parent, None);
    assert_eq!(tree.roots, vec![]);
}

#[test]
fn one_group_builds_parallel_trees() {
    let tree = build("(+ 1 2)").unwrap();
    assert_eq!(tree.nodes.len(), 3);
    assert_eq!(tree.nodes[0].token, Token::Operator(Operator::Plus));
    assert_eq!(tree.nodes[0].parent, None);
    assert_eq!(tree.nodes[0].children, vec![1, 2]);
    assert_eq!(tree.nodes[0].scope, 1);
    assert_eq!(tree.nodes[1].token, Token::Value(Value::Int(1)));
    assert_eq!(tree.nodes[1].parent, Some(0));
    assert_eq!(tree.nodes[1].children, vec![]);
    assert_eq!(tree.nodes[2].token, Token::Value(Value::Int(2)));
    assert_eq!(tree.scopes.len(), 2);
    assert_eq!(tree.scopes[1].parent, Some(0));
    assert_eq!(tree.scopes[1].expression, Some(0));
    assert_eq!(tree.scopes[0].children, vec![1]);
    assert_eq!(tree.roots, vec![0]);
}

#[test]
fn nested_groups_nest_the_scopes() {
    let tree = build("(+ 1 (- 2 3))").unwrap();
    // The minus node is a child of the plus node even across the
    // parenthesis, and it is also the root expression of the inner scope.
    assert_eq!(tree.nodes[0].token, Token::Operator(Operator::Plus));
    assert_eq!(tree.nodes[2].token, Token::Operator(Operator::Minus));
    assert_eq!(tree.nodes[0].children, vec![1, 2]);
    assert_eq!(tree.nodes[2].parent, Some(0));
    assert_eq!(tree.nodes[2].scope, 2);
    assert_eq!(tree.scopes.len(), 3);
    assert_eq!(tree.scopes[2].parent, Some(1));
    assert_eq!(tree.scopes[2].expression, Some(2));
    assert_eq!(tree.scopes[1].children, vec![2]);
    assert_eq!(tree.roots, vec![0]);
}

#[test]
fn sibling_groups_share_the_root_scope() {
    let tree = build("(def x 5) (+ x 1)").unwrap();
    assert_eq!(tree.scopes.len(), 3);
    assert_eq!(tree.scopes[1].parent, Some(0));
    assert_eq!(tree.scopes[2].parent, Some(0));
    assert_eq!(tree.scopes[0].children, vec![1, 2]);
    assert_eq!(tree.roots.len(), 2);
}

#[test]
fn over_closing_is_rejected() {
    assert_eq!(build(")"), Err(BuildError::UnbalancedParentheses));
    assert_eq!(build("(+ 1 2))"), Err(BuildError::UnbalancedParentheses));
}

#[test]
fn under_closing_is_rejected_at_end_of_stream() {
    assert_eq!(build("("), Err(BuildError::UnbalancedParentheses));
    assert_eq!(build("(()"), Err(BuildError::UnbalancedParentheses));
    assert_eq!(build("(+ 1 2"), Err(BuildError::UnbalancedParentheses));
}

#[test]
fn balanced_streams_build() {
    assert!(build("()").is_ok());
    assert!(build("(()) (())").is_ok());
}

#[test]
fn tokenization_error_markers_are_rejected() {
    let tokens = vec![
        TokenData {
            token: Token::OpenParenthesis,
            row: 1,
            position: 0,
        },
        TokenData {
            token: Token::TokenizationError(String::from("oops")),
            row: 1,
            position: 1,
        },
    ];
    assert_eq!(
        expressionize(&tokens),
        Err(BuildError::Tokenization(String::from("oops")))
    );
}

#[test]
fn get_parent_returns_the_back_index() {
    let tree = build("(+ 1)").unwrap();
    assert_eq!(tree.nodes[1].get_parent(), Some(0));
    assert_eq!(tree.nodes[0].get_parent(), None);
}
