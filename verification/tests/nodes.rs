use seal_lexer::ast::Node;
use seal_lexer::token::Location;

fn at(line: usize, column: usize, index: usize) -> Location {
    Location { line, column, index }
}

#[test]
fn node_keeps_its_parts() {
    let node = Node::new("body", at(1, 1, 0), at(1, 5, 4));
    assert_eq!(node.node, "body");
    assert_eq!(node.start, at(1, 1, 0));
    assert_eq!(node.end, at(1, 5, 4));
    assert_eq!(node.unwrap(), (at(1, 1, 0), "body", at(1, 5, 4)));
}

#[test]
fn node_from_a_triple() {
    let node: Node<u32> = Node::from((at(2, 3, 9), 7, at(2, 4, 10)));
    assert_eq!(node.node, 7);
    assert_eq!(node.start, at(2, 3, 9));
    assert_eq!(node.end, at(2, 4, 10));
}

#[test]
fn span_is_the_text_between_the_offsets() {
    let src = "let h\u{e9} = 1";
    let node = Node::new((), at(1, 5, 4), at(1, 7, 7));
    assert_eq!(node.span(src), "h\u{e9}");
    let whole = Node::new((), at(1, 1, 0), at(1, 11, 11));
    assert_eq!(whole.span(src), src);
    let empty = Node::new((), at(1, 4, 3), at(1, 4, 3));
    assert_eq!(empty.span(src), "");
}
