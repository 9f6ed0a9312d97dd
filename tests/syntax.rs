use gdfmt::gap::get_gap_lines;
use gdfmt::parser::{char_starts, kind_from_name};
use gdfmt::rules::apply;
use gdfmt::syntax::{get_node_text, NodeKind, Sibling, SyntaxNode};

fn chars(s: &str) -> Vec<char> {
    s.chars().collect()
}

fn leaf(kind: NodeKind, start: usize, end: usize) -> SyntaxNode {
    SyntaxNode { kind, start, end, children: Vec::new() }
}

#[test]
fn kinds_are_read_from_grammar_names() {
    assert_eq!(kind_from_name("source"), NodeKind::Source);
    assert_eq!(kind_from_name("class_body"), NodeKind::ClassBody);
    assert_eq!(kind_from_name("&&"), NodeKind::AndAnd);
    assert_eq!(kind_from_name("while_statement"), NodeKind::Other);
}

#[test]
fn char_starts_marks_multibyte_characters() {
    let starts = char_starts(&chars("aé✓"));
    assert_eq!(starts, vec![Some(0), Some(1), None, Some(2), None, None, Some(3)]);
}

#[test]
fn node_text_is_its_range() {
    let source = chars("var x = 1");
    assert_eq!(get_node_text(&leaf(NodeKind::Other, 4, 5), &source), vec!['x']);
}

#[test]
fn gap_without_previous_sibling_is_empty() {
    let source = chars("\n\n\nfunc");
    assert!(get_gap_lines(NodeKind::FunctionDefinition, 3, NodeKind::Source, None, &source).is_empty());
}

#[test]
fn gap_keeps_one_blank_line() {
    let source = chars("a\n\n\n\nb");
    let prev = Some(Sibling { kind: NodeKind::Other, end: 1 });
    assert_eq!(get_gap_lines(NodeKind::Other, 5, NodeKind::Body, prev, &source), vec!['\n']);
}

#[test]
fn gap_drops_single_newline() {
    let source = chars("a\nb");
    let prev = Some(Sibling { kind: NodeKind::Other, end: 1 });
    assert!(get_gap_lines(NodeKind::Other, 2, NodeKind::Body, prev, &source).is_empty());
}

#[test]
fn gap_forced_between_top_level_declarations() {
    let source = chars("a\nb");
    let prev = Some(Sibling { kind: NodeKind::FunctionDefinition, end: 1 });
    assert_eq!(get_gap_lines(NodeKind::ClassDefinition, 2, NodeKind::Source, prev, &source), vec!['\n', '\n']);
}

#[test]
fn gap_after_comment_is_not_forced() {
    let source = chars("a\nb");
    let prev = Some(Sibling { kind: NodeKind::Comment, end: 1 });
    assert!(get_gap_lines(NodeKind::FunctionDefinition, 2, NodeKind::Source, prev, &source).is_empty());
}

#[test]
fn hand_built_tree_is_formatted() {
    // `x&&y`, as a binary operator inside a file
    let source = chars("x&&y");
    let op = SyntaxNode {
        kind: NodeKind::BinaryOperator,
        start: 0,
        end: 4,
        children: vec![leaf(NodeKind::Other, 0, 1), leaf(NodeKind::AndAnd, 1, 3), leaf(NodeKind::Other, 3, 4)],
    };
    let out = apply(&op, &source, 0, NodeKind::Other, None);
    assert_eq!(out, chars("x and y"));
}
