use minicc::parser::ast::{ASTNode, SyntaxNodeType, AST};

#[test]
fn new_node_has_no_children() {
    let mut node = ASTNode::new(SyntaxNodeType::Function(String::from("main")));
    assert_eq!(node.num_child(), 0);
    assert_eq!(node, ASTNode::new(SyntaxNodeType::Function(String::from("main"))));
}

#[test]
fn add_child_appends_in_order() {
    let mut a = ASTNode::new(SyntaxNodeType::Statement(String::from("return")));
    a.add_child(ASTNode::new(SyntaxNodeType::Expression(1)));
    a.add_child(ASTNode::new(SyntaxNodeType::Expression(2)));
    assert_eq!(a.num_child(), 2);

    let mut b = ASTNode::new(SyntaxNodeType::Statement(String::from("return")));
    b.add_child(ASTNode::new(SyntaxNodeType::Expression(2)));
    b.add_child(ASTNode::new(SyntaxNodeType::Expression(1)));
    assert_eq!(b.num_child(), 2);
    assert_ne!(a, b);
}

#[test]
fn num_child_leaves_the_node_unchanged() {
    let mut a = ASTNode::new(SyntaxNodeType::Program);
    a.add_child(ASTNode::new(SyntaxNodeType::Function(String::from("f"))));
    let mut b = ASTNode::new(SyntaxNodeType::Program);
    b.add_child(ASTNode::new(SyntaxNodeType::Function(String::from("f"))));
    assert_eq!(a.num_child(), 1);
    assert_eq!(a, b);
}

#[test]
fn new_tree_is_an_empty_program() {
    let mut ast = AST::new();
    assert_eq!(ast.root, ASTNode::new(SyntaxNodeType::Program));
    assert_eq!(ast.root.num_child(), 0);
}

#[test]
fn nodes_differ_by_category_and_payload() {
    assert_ne!(
        ASTNode::new(SyntaxNodeType::Function(String::from("a"))),
        ASTNode::new(SyntaxNodeType::Statement(String::from("a")))
    );
    assert_ne!(
        ASTNode::new(SyntaxNodeType::Expression(1)),
        ASTNode::new(SyntaxNodeType::Expression(-1))
    );
}

#[test]
fn trees_are_equal_by_shape_and_payload() {
    let build = |name: &str, values: &[i64]| {
        let mut statement = ASTNode::new(SyntaxNodeType::Statement(String::from("return")));
        for value in values {
            statement.add_child(ASTNode::new(SyntaxNodeType::Expression(*value)));
        }
        let mut function = ASTNode::new(SyntaxNodeType::Function(String::from(name)));
        function.add_child(statement);
        let mut ast = AST::new();
        ast.root.add_child(function);
        ast
    };
    assert_eq!(build("main", &[1, 2]), build("main", &[1, 2]));
    assert_ne!(build("main", &[1, 2]), build("main", &[1]));
    assert_ne!(build("main", &[1, 2]), build("main", &[1, 3]));
    assert_ne!(build("main", &[1, 2]), build("f", &[1, 2]));
    assert_ne!(build("main", &[]), AST::new());
}
