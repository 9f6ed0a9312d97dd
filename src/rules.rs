//! The formatting rules: a dispatch on the kind of each node that renders
//! the node and, recursively, its children.
use vstd::prelude::*;
use crate::gap::{
    forced_separation, gap_lines, get_gap_lines, is_declaration, kept_gap, newline_count,
};
use crate::literals::{
    normalize_float, normalize_integer, normalize_string, normalized_float, normalized_integer,
    normalized_string,
};
use crate::syntax::{
    depth_within, get_node_text, lemma_depth_within_grows, same_tree, next_kind, node_text, prev_kind, prev_sibling, well_formed,
    NodeKind, Sibling, SyntaxNode,
};
use crate::text::{
    end_with_one_newline, push_all, push_tabs, tabs, trim, trim_chars, with_one_end_line,
};

verus! {

/// Kinds whose children are statements, one per line.
pub open spec fn is_container(k: NodeKind) -> bool {
    k == NodeKind::Source || k == NodeKind::Body || k == NodeKind::ClassBody
}

/// Statement kinds with a rule of their own.
pub open spec fn has_statement_rule(k: NodeKind) -> bool {
    k == NodeKind::VariableStatement || k == NodeKind::FunctionDefinition
        || k == NodeKind::ConstructorDefinition || k == NodeKind::ClassDefinition
        || k == NodeKind::EnumDefinition
}

/// A node written as a line of its own: its gap, its indentation and its
/// trimmed source text. Comments are, and every statement without a rule.
pub open spec fn is_plain_line(k: NodeKind, parent: NodeKind) -> bool {
    k == NodeKind::Comment || (is_container(parent) && !has_statement_rule(k))
}

/// An indented block of statements.
pub open spec fn is_block(k: NodeKind) -> bool {
    k == NodeKind::Body || k == NodeKind::ClassBody
}

/// How tightly the GDScript grammar binds a binary operator whose operator
/// token is of kind `op`; `None` for a token outside the grammar's table.
pub open spec fn operator_precedence(op: NodeKind) -> Option<nat> {
    match op {
        NodeKind::OrOr | NodeKind::OrKeyword => Some(3),
        NodeKind::AndAnd | NodeKind::AndKeyword => Some(4),
        NodeKind::InKeyword | NodeKind::NotKeyword => Some(5),
        NodeKind::Less | NodeKind::LessEqual | NodeKind::EqualEqual | NodeKind::NotEqual
        | NodeKind::GreaterEqual | NodeKind::Greater => Some(6),
        NodeKind::Pipe => Some(7),
        NodeKind::Ampersand => Some(8),
        NodeKind::Caret => Some(9),
        NodeKind::ShiftLeft | NodeKind::ShiftRight => Some(10),
        NodeKind::Plus | NodeKind::Minus => Some(11),
        NodeKind::Star | NodeKind::Slash | NodeKind::StarStar | NodeKind::Percent => Some(12),
        NodeKind::IsKeyword => Some(15),
        NodeKind::AsKeyword => Some(16),
        _ => None,
    }
}

/// The precedence of a unary operator.
pub open spec fn unary_precedence() -> nat {
    14
}

/// The precedence an operator node `n` imposes on its operands: a binary
/// operator's from the table (above every entry for an unknown token, so
/// that its operands keep their parentheses), a unary operator's otherwise.
pub open spec fn outer_precedence(n: SyntaxNode) -> nat {
    if n.kind == NodeKind::BinaryOperator {
        match operator_precedence(if n.children.len() >= 2 { n.children[1].kind } else { NodeKind::Other }) {
            Some(p) => p,
            None => 99,
        }
    } else {
        unary_precedence()
    }
}

/// How tightly an expression `e` binds as an operand: a binary operator by
/// its token (loosest for an unknown token), a unary operator by the unary
/// precedence, a conditional expression, an `await` or a lambda loosest of
/// all, and anything else (names, literals, calls, attributes) tightest.
pub open spec fn binding(e: SyntaxNode) -> nat {
    if e.kind == NodeKind::BinaryOperator {
        match operator_precedence(if e.children.len() >= 2 { e.children[1].kind } else { NodeKind::Other }) {
            Some(p) => p,
            None => 0,
        }
    } else if e.kind == NodeKind::UnaryOperator {
        unary_precedence()
    } else if e.kind == NodeKind::ConditionalExpression || e.kind == NodeKind::AwaitExpression || e.kind
        == NodeKind::Lambda {
        0
    } else {
        100
    }
}

/// The expression inside any number of nested parentheses `e`.
pub open spec fn innermost(e: SyntaxNode) -> SyntaxNode
    decreases e,
{
    if e.kind == NodeKind::ParenthesizedExpression && e.children.len() >= 2 {
        innermost(e.children[1])
    } else {
        e
    }
}

/// An operand `c` of an operator of precedence `outer` (on its right side
/// when `right`) keeps one pair of parentheses exactly when it is
/// parenthesized and what they hold binds more loosely than the operator,
/// or as loosely on its right side (the grammar's operators group to the
/// left).
pub open spec fn keeps_parentheses(outer: nat, right: bool, c: SyntaxNode) -> bool {
    &&& c.kind == NodeKind::ParenthesizedExpression
    &&& {
        let b = binding(innermost(c));
        b < outer || (b == outer && right)
    }
}

/// The text `s` of operand `c`, in one pair of parentheses when it keeps them.
pub open spec fn operand_text(outer: nat, right: bool, c: SyntaxNode, s: Seq<char>) -> Seq<char> {
    if keeps_parentheses(outer, right, c) {
        seq!['('] + s + seq![')']
    } else {
        s
    }
}

/// The indentation a child of kind `child` of a `parent` node gets.
pub open spec fn child_indent(parent: NodeKind, child: NodeKind, indent: nat) -> nat {
    if parent == NodeKind::VariableStatement {
        indent + 1
    } else if (parent == NodeKind::FunctionDefinition || parent == NodeKind::ConstructorDefinition
        || parent == NodeKind::ClassDefinition || parent == NodeKind::SetBody
        || parent == NodeKind::GetBody) && is_block(child) {
        indent + 1
    } else {
        indent
    }
}

/// `s`, with a newline added unless it already ends with one.
pub open spec fn line_ended(s: Seq<char>) -> Seq<char> {
    if s.len() > 0 && s.last() == '\n' {
        s
    } else {
        s.push('\n')
    }
}

/// The text of node `n` at `indent` levels of indentation, given the kind of
/// its parent and its previous sibling.
pub open spec fn format_node(
    n: SyntaxNode,
    src: Seq<char>,
    indent: nat,
    parent: NodeKind,
    prev: Option<Sibling>,
) -> Seq<char>
    decreases n, n.children.len() + 2,
{
    let head = gap_lines(n.kind, n.start as nat, parent, prev, src) + tabs(indent);
    let text = node_text(n, src);
    let children = format_children(n, src, indent, parent, n.children.len() as int);
    if is_plain_line(n.kind, parent) {
        head + trim(text) + seq!['\n']
    } else {
        match n.kind {
            NodeKind::Source => with_one_end_line(children),
            NodeKind::FunctionDefinition | NodeKind::ConstructorDefinition
            | NodeKind::ClassDefinition => head + children,
            NodeKind::VariableStatement => line_ended(head + children),
            NodeKind::EnumDefinition => head + children + seq!['\n'],
            NodeKind::SetBody | NodeKind::GetBody => tabs(indent) + children,
            NodeKind::Integer => normalized_integer(text),
            NodeKind::Float => normalized_float(text),
            NodeKind::StringLiteral => normalized_string(text),
            NodeKind::Body | NodeKind::ClassBody | NodeKind::Setget | NodeKind::EnumeratorList
            | NodeKind::Enumerator | NodeKind::Parameters | NodeKind::DefaultParameter
            | NodeKind::ParenthesizedExpression | NodeKind::Annotations | NodeKind::Annotation
            | NodeKind::UnaryOperator | NodeKind::BinaryOperator | NodeKind::Array
            | NodeKind::Dictionary | NodeKind::Pair => children,
            _ => trim(text),
        }
    }
}

/// The text of the first `i` children of `n`, one after the other.
pub open spec fn format_children(
    n: SyntaxNode,
    src: Seq<char>,
    indent: nat,
    parent: NodeKind,
    i: int,
) -> Seq<char>
    decreases n, i + 1,
{
    if i <= 0 {
        Seq::empty()
    } else {
        format_children(n, src, indent, parent, i - 1) + child_piece(n, src, indent, parent, i - 1)
    }
}

/// The text child `i` of `n` contributes to `n`'s text: the child's own text
/// with the separator the rule of `n` puts before it.
pub open spec fn child_piece(
    n: SyntaxNode,
    src: Seq<char>,
    indent: nat,
    parent: NodeKind,
    i: int,
) -> Seq<char>
    decreases n, 0int,
{
    if 0 <= i < n.children.len() {
        let c = n.children[i];
        let ck = c.kind;
        let pk = prev_kind(n, i);
        let nk = next_kind(n, i);
        let s = format_node(
            c,
            src,
            child_indent(n.kind, ck, indent),
            n.kind,
            prev_sibling(n, i),
        );
        let space = seq![' '] + s;
        match n.kind {
            NodeKind::FunctionDefinition | NodeKind::ConstructorDefinition => if is_block(ck) {
                seq!['\n'] + s
            } else if i == 0 || ck == NodeKind::Parameters || ck == NodeKind::Colon {
                s
            } else {
                space
            },
            NodeKind::ClassDefinition => if is_block(ck) {
                seq!['\n'] + s
            } else if i == 0 || ck == NodeKind::Colon {
                s
            } else {
                space
            },
            NodeKind::VariableStatement => if i == 0 || ck == NodeKind::Colon || ck
                == NodeKind::Setget {
                s
            } else {
                space
            },
            NodeKind::Setget => if ck == NodeKind::Colon {
                s + seq!['\n']
            } else if ck == NodeKind::SetKeyword || ck == NodeKind::GetKeyword {
                if pk == Some(NodeKind::Colon) {
                    tabs(indent) + s
                } else {
                    space
                }
            } else if ck == NodeKind::Equals || ck == NodeKind::Setter || ck == NodeKind::Getter {
                space
            } else {
                s
            },
            NodeKind::SetBody | NodeKind::GetBody => if ck == NodeKind::Colon {
                s + seq!['\n']
            } else {
                s
            },
            NodeKind::EnumDefinition | NodeKind::Enumerator => if i == 0 {
                s
            } else {
                space
            },
            NodeKind::EnumeratorList => if ck == NodeKind::Enumerator {
                seq!['\n'] + tabs(indent + 1) + s
            } else if ck == NodeKind::RightBrace && pk != Some(NodeKind::LeftBrace) {
                (if pk == Some(NodeKind::Enumerator) {
                    seq![',']
                } else {
                    Seq::empty()
                }) + seq!['\n'] + tabs(indent) + s
            } else {
                s
            },
            NodeKind::Pair => if i == 0 || ck == NodeKind::Colon {
                s
            } else {
                space
            },
            NodeKind::Parameters => if ck == NodeKind::LeftParen || ck == NodeKind::RightParen || ck
                == NodeKind::Equals || ck == NodeKind::Comma || pk == Some(NodeKind::LeftParen) {
                s
            } else {
                space
            },
            NodeKind::ParenthesizedExpression => if ck == NodeKind::LeftParen || ck
                == NodeKind::RightParen {
                Seq::empty()
            } else {
                s
            },
            NodeKind::Annotations => if i > 0 && ck == NodeKind::Annotation {
                space
            } else {
                s
            },
            NodeKind::UnaryOperator => if ck == NodeKind::Bang || ck == NodeKind::NotKeyword {
                seq!['n', 'o', 't', ' ']
            } else if ck == NodeKind::Plus {
                Seq::empty()
            } else {
                operand_text(unary_precedence(), true, c, s)
            },
            NodeKind::BinaryOperator => if ck == NodeKind::AndAnd {
                seq![' ', 'a', 'n', 'd']
            } else if ck == NodeKind::OrOr {
                seq![' ', 'o', 'r']
            } else if i > 0 {
                seq![' '] + operand_text(outer_precedence(n), true, c, s)
            } else {
                operand_text(outer_precedence(n), false, c, s)
            },
            NodeKind::Array => if ck == NodeKind::Comma && nk == Some(NodeKind::RightBracket) {
                Seq::empty()
            } else if ck == NodeKind::LeftBracket || ck == NodeKind::RightBracket || ck
                == NodeKind::Comma || pk == Some(NodeKind::LeftBracket) {
                s
            } else {
                space
            },
            NodeKind::Dictionary => if ck == NodeKind::Comma && nk == Some(NodeKind::RightBrace) {
                Seq::empty()
            } else if ck == NodeKind::RightBrace && pk != Some(NodeKind::LeftBrace) {
                space
            } else if ck == NodeKind::LeftBrace || ck == NodeKind::RightBrace || ck
                == NodeKind::Comma {
                s
            } else {
                space
            },
            _ => s,
        }
    } else {
        Seq::empty()
    }
}

/// In a file, the text of a function, class or constructor definition that
/// follows anything but a comment begins with two blank lines.
pub proof fn lemma_top_level_declaration_separated(n: SyntaxNode, src: Seq<char>, i: int)
    requires
        n.kind == NodeKind::Source,
        0 < i < n.children.len(),
        is_declaration(n.children[i].kind),
        n.children[i - 1].kind != NodeKind::Comment,
    ensures
        child_piece(n, src, 0, NodeKind::Other, i).subrange(0, 2) == seq!['\n', '\n'],
{
    let c = n.children[i];
    let s = format_node(c, src, 0, NodeKind::Source, prev_sibling(n, i));
    let children = format_children(c, src, 0, NodeKind::Source, c.children.len() as int);
    assert(gap_lines(c.kind, c.start as nat, NodeKind::Source, prev_sibling(n, i), src)
        == seq!['\n', '\n']);
    assert(s == seq!['\n', '\n'] + tabs(0) + children);
    assert(s.subrange(0, 2) =~= seq!['\n', '\n']);
}

/// In a file, a function, class or constructor definition just after a
/// comment keeps the spacing the source had after the comment: its text is
/// that kept gap followed by the definition itself.
pub proof fn lemma_commented_declaration_keeps_spacing(n: SyntaxNode, src: Seq<char>, i: int)
    requires
        n.kind == NodeKind::Source,
        0 < i < n.children.len(),
        is_declaration(n.children[i].kind),
        n.children[i - 1].kind == NodeKind::Comment,
    ensures
        child_piece(n, src, 0, NodeKind::Other, i) == kept_gap(
            src.subrange(n.children[i - 1].end as int, n.children[i].start as int),
        ) + format_children(
            n.children[i],
            src,
            0,
            NodeKind::Source,
            n.children[i].children.len() as int,
        ),
{
    let c = n.children[i];
    let children = format_children(c, src, 0, NodeKind::Source, c.children.len() as int);
    let gap = kept_gap(src.subrange(n.children[i - 1].end as int, c.start as int));
    assert(gap_lines(c.kind, c.start as nat, NodeKind::Source, prev_sibling(n, i), src) == gap);
    assert(gap + tabs(0) =~= gap);
}

/// Every statement of a file or block begins with its gap lines and its
/// indentation.
pub proof fn lemma_statement_begins_with_gap(
    n: SyntaxNode,
    src: Seq<char>,
    indent: nat,
    parent: NodeKind,
    i: int,
) -> (rest: Seq<char>)
    requires
        is_container(n.kind),
        0 <= i < n.children.len(),
    ensures
        child_piece(n, src, indent, parent, i) == gap_lines(
            n.children[i].kind,
            n.children[i].start as nat,
            n.kind,
            prev_sibling(n, i),
            src,
        ) + tabs(indent) + rest,
{
    let c = n.children[i];
    let head = gap_lines(c.kind, c.start as nat, n.kind, prev_sibling(n, i), src) + tabs(indent);
    let children = format_children(c, src, indent, n.kind, c.children.len() as int);
    if is_plain_line(c.kind, n.kind) {
        trim(node_text(c, src)) + seq!['\n']
    } else if c.kind == NodeKind::VariableStatement {
        if (head + children).len() > 0 && (head + children).last() == '\n' {
            children
        } else {
            assert((head + children).push('\n') =~= head + children.push('\n'));
            children.push('\n')
        }
    } else if c.kind == NodeKind::EnumDefinition {
        assert(head + children + seq!['\n'] =~= head + (children + seq!['\n']));
        children + seq!['\n']
    } else {
        children
    }
}

/// Blank lines collapse: a statement whose source gap from its previous
/// sibling holds two newlines or more is preceded by exactly one blank line
/// (a newline right after the previous statement's own), however many the
/// source had, unless it is a separated top-level declaration.
pub proof fn lemma_statement_blank_lines_collapse(
    n: SyntaxNode,
    src: Seq<char>,
    indent: nat,
    parent: NodeKind,
    i: int,
)
    requires
        is_container(n.kind),
        0 < i < n.children.len(),
        newline_count(src.subrange(n.children[i - 1].end as int, n.children[i].start as int)) >= 2,
        !forced_separation(n.children[i].kind, n.kind, prev_sibling(n, i)),
    ensures
        exists|rest: Seq<char>| child_piece(n, src, indent, parent, i) == seq!['\n'] + tabs(indent) + rest,
{
    let rest = lemma_statement_begins_with_gap(n, src, indent, parent, i);
    assert(gap_lines(n.children[i].kind, n.children[i].start as nat, n.kind, prev_sibling(n, i), src)
        == seq!['\n']);
}

/// Trees with the same kinds, ranges and shape format alike.
pub proof fn lemma_same_tree_formats_alike(
    a: SyntaxNode,
    b: SyntaxNode,
    src: Seq<char>,
    indent: nat,
    parent: NodeKind,
    prev: Option<Sibling>,
)
    requires
        same_tree(a, b),
    ensures
        format_node(a, src, indent, parent, prev) == format_node(b, src, indent, parent, prev),
    decreases a, a.children.len() + 2,
{
    lemma_same_children_format_alike(a, b, src, indent, parent, a.children.len() as int);
}

proof fn lemma_same_children_format_alike(
    a: SyntaxNode,
    b: SyntaxNode,
    src: Seq<char>,
    indent: nat,
    parent: NodeKind,
    i: int,
)
    requires
        same_tree(a, b),
        i <= a.children.len(),
    ensures
        format_children(a, src, indent, parent, i) == format_children(b, src, indent, parent, i),
    decreases a, i + 1,
{
    if i > 0 {
        lemma_same_children_format_alike(a, b, src, indent, parent, i - 1);
        lemma_same_piece_format_alike(a, b, src, indent, parent, i - 1);
    }
}

proof fn lemma_same_tree_binding(x: SyntaxNode, y: SyntaxNode)
    requires
        same_tree(x, y),
    ensures
        binding(innermost(x)) == binding(innermost(y)),
    decreases x,
{
    if x.children.len() >= 2 {
        assert(same_tree(x.children[1], y.children[1]));
    }
    if x.kind == NodeKind::ParenthesizedExpression && x.children.len() >= 2 {
        lemma_same_tree_binding(x.children[1], y.children[1]);
    } else {
        if innermost(x).children.len() >= 2 {
            assert(same_tree(x.children[1], y.children[1]));
        }
    }
}

proof fn lemma_same_piece_format_alike(
    a: SyntaxNode,
    b: SyntaxNode,
    src: Seq<char>,
    indent: nat,
    parent: NodeKind,
    i: int,
)
    requires
        same_tree(a, b),
        0 <= i < a.children.len(),
    ensures
        child_piece(a, src, indent, parent, i) == child_piece(b, src, indent, parent, i),
    decreases a, 0int,
{
    assert(same_tree(a.children[i], b.children[i]));
    if i > 0 {
        assert(same_tree(a.children[i - 1], b.children[i - 1]));
    }
    if i + 1 < a.children.len() {
        assert(same_tree(a.children[i + 1], b.children[i + 1]));
    }
    if a.children.len() >= 2 {
        assert(same_tree(a.children[1], b.children[1]));
    }
    assert(prev_sibling(a, i) == prev_sibling(b, i));
    lemma_same_tree_binding(a.children[i], b.children[i]);
    assert(outer_precedence(a) == outer_precedence(b));
    lemma_same_tree_formats_alike(
        a.children[i],
        b.children[i],
        src,
        child_indent(a.kind, a.children[i].kind, indent),
        a.kind,
        prev_sibling(a, i),
    );
}

/// `items` joined by a comma and a space.
pub open spec fn comma_joined(items: Seq<Seq<char>>) -> Seq<char>
    decreases items.len(),
{
    if items.len() == 0 {
        Seq::empty()
    } else if items.len() == 1 {
        items[0]
    } else {
        comma_joined(items.drop_last()) + seq![',', ' '] + items.last()
    }
}

/// The formatted elements of an array node `n` with `m` elements, one at
/// every odd child index.
pub open spec fn array_elements(n: SyntaxNode, src: Seq<char>, indent: nat, m: int) -> Seq<Seq<char>> {
    Seq::new(
        m as nat,
        |j: int| format_node(n.children[2 * j + 1], src, indent, NodeKind::Array, prev_sibling(n, 2 * j + 1)),
    )
}

/// An array node of `m` elements: `[`, the elements separated by commas, an
/// optional trailing comma, and `]`.
pub open spec fn is_array_shape(n: SyntaxNode, src: Seq<char>, m: int, trailing: bool) -> bool {
    let last = n.children.len() - 1;
    &&& n.kind == NodeKind::Array
    &&& m >= 1
    &&& n.children.len() == 2 * m + 1 + if trailing { 1int } else { 0 }
    &&& n.children[0].kind == NodeKind::LeftBracket
    &&& trim(node_text(n.children[0], src)) == seq!['[']
    &&& n.children[last].kind == NodeKind::RightBracket
    &&& trim(node_text(n.children[last], src)) == seq![']']
    &&& forall|j: int| 0 <= j < m ==> {
        let e = #[trigger] n.children[2 * j + 1].kind;
        e != NodeKind::Comma && e != NodeKind::LeftBracket && e != NodeKind::RightBracket
    }
    &&& forall|j: int| 1 <= j < m + if trailing { 1int } else { 0 } ==> (#[trigger] n.children[2 * j]).kind
        == NodeKind::Comma && trim(node_text(n.children[2 * j], src)) == seq![',']
}

proof fn lemma_array_prefix(n: SyntaxNode, src: Seq<char>, indent: nat, parent: NodeKind, m: int, trailing: bool, j: int)
    requires
        is_array_shape(n, src, m, trailing),
        0 <= j < m,
    ensures
        format_children(n, src, indent, parent, 2 * j + 2) == seq!['['] + comma_joined(
            array_elements(n, src, indent, m).take(j + 1),
        ),
    decreases j,
{
    let items = array_elements(n, src, indent, m);
    let e = n.children[2 * j + 1].kind;
    assert(e != NodeKind::Comma && e != NodeKind::LeftBracket && e != NodeKind::RightBracket);
    if j == 0 {
        assert(format_children(n, src, indent, parent, 0) == Seq::<char>::empty());
        assert(format_node(n.children[0], src, indent, NodeKind::Array, prev_sibling(n, 0)) == seq!['[']);
        assert(child_piece(n, src, indent, parent, 0) == seq!['[']);
        assert(child_piece(n, src, indent, parent, 1) == items[0]);
        assert(items.take(1) =~= seq![items[0]]);
        assert(format_children(n, src, indent, parent, 1) =~= seq!['[']);
        assert(format_children(n, src, indent, parent, 2) =~= seq!['['] + items[0]);
    } else {
        lemma_array_prefix(n, src, indent, parent, m, trailing, j - 1);
        assert(n.children[2 * j].kind == NodeKind::Comma);
        let e2 = n.children[2 * (j - 1) + 1].kind;
        assert(e2 != NodeKind::RightBracket);
        assert(items.take(j + 1).drop_last() =~= items.take(j));
        assert(format_node(n.children[2 * j], src, indent, NodeKind::Array, prev_sibling(n, 2 * j)) == seq![',']);
        assert(child_piece(n, src, indent, parent, 2 * j) == seq![',']);
        assert(child_piece(n, src, indent, parent, 2 * j + 1) == seq![' '] + items[j]);
        assert(format_children(n, src, indent, parent, 2 * j + 1) == format_children(n, src, indent, parent, 2 * j)
            + seq![',']);
        assert(format_children(n, src, indent, parent, 2 * j + 2) =~= seq!['['] + comma_joined(items.take(j))
            + seq![','] + (seq![' '] + items[j]));
        assert(seq!['['] + comma_joined(items.take(j)) + seq![','] + (seq![' '] + items[j]) =~= seq!['[']
            + (comma_joined(items.take(j)) + seq![',', ' '] + items[j]));
    }
}

/// An array is written as `[`, its elements joined by `", "`, and `]`: no
/// space inside the brackets and no trailing comma.
pub proof fn lemma_array_format(n: SyntaxNode, src: Seq<char>, indent: nat, parent: NodeKind, m: int, trailing: bool)
    requires
        is_array_shape(n, src, m, trailing),
        !is_plain_line(NodeKind::Array, parent),
    ensures
        format_node(n, src, indent, parent, None) == seq!['['] + comma_joined(array_elements(n, src, indent, m))
            + seq![']'],
{
    let items = array_elements(n, src, indent, m);
    lemma_array_prefix(n, src, indent, parent, m, trailing, m - 1);
    assert(items.take(m) =~= items);
    let last = n.children.len() - 1;
    assert(format_node(n.children[last], src, indent, NodeKind::Array, prev_sibling(n, last)) == seq![']']);
    assert(child_piece(n, src, indent, parent, last) == seq![']']);
    if trailing {
        assert(n.children[2 * m].kind == NodeKind::Comma);
        assert(child_piece(n, src, indent, parent, 2 * m) == Seq::<char>::empty());
        assert(format_children(n, src, indent, parent, 2 * m + 1) =~= format_children(n, src, indent, parent, 2 * m));
        assert(format_children(n, src, indent, parent, 2 * m + 2) =~= seq!['['] + comma_joined(items) + seq![']']);
    } else {
        assert(format_children(n, src, indent, parent, 2 * m + 1) =~= seq!['['] + comma_joined(items) + seq![']']);
    }
}

/// The formatted entries of a dictionary node `n` with `m` entries, one at
/// every odd child index.
pub open spec fn dictionary_entries(n: SyntaxNode, src: Seq<char>, indent: nat, m: int) -> Seq<Seq<char>> {
    Seq::new(
        m as nat,
        |j: int| format_node(n.children[2 * j + 1], src, indent, NodeKind::Dictionary, prev_sibling(n, 2 * j + 1)),
    )
}

/// A dictionary node of `m` entries: `{`, the entries separated by commas, an
/// optional trailing comma, and `}`.
pub open spec fn is_dictionary_shape(n: SyntaxNode, src: Seq<char>, m: int, trailing: bool) -> bool {
    let last = n.children.len() - 1;
    &&& n.kind == NodeKind::Dictionary
    &&& m >= 1
    &&& n.children.len() == 2 * m + 1 + if trailing { 1int } else { 0 }
    &&& n.children[0].kind == NodeKind::LeftBrace
    &&& trim(node_text(n.children[0], src)) == seq!['{']
    &&& n.children[last].kind == NodeKind::RightBrace
    &&& trim(node_text(n.children[last], src)) == seq!['}']
    &&& forall|j: int| 0 <= j < m ==> {
        let e = #[trigger] n.children[2 * j + 1].kind;
        e != NodeKind::Comma && e != NodeKind::LeftBrace && e != NodeKind::RightBrace
    }
    &&& forall|j: int| 1 <= j < m + if trailing { 1int } else { 0 } ==> (#[trigger] n.children[2 * j]).kind
        == NodeKind::Comma && trim(node_text(n.children[2 * j], src)) == seq![',']
}

proof fn lemma_dictionary_prefix(n: SyntaxNode, src: Seq<char>, indent: nat, parent: NodeKind, m: int, trailing: bool, j: int)
    requires
        is_dictionary_shape(n, src, m, trailing),
        0 <= j < m,
    ensures
        format_children(n, src, indent, parent, 2 * j + 2) == seq!['{', ' '] + comma_joined(
            dictionary_entries(n, src, indent, m).take(j + 1),
        ),
    decreases j,
{
    let items = dictionary_entries(n, src, indent, m);
    let e = n.children[2 * j + 1].kind;
    assert(e != NodeKind::Comma && e != NodeKind::LeftBrace && e != NodeKind::RightBrace);
    if j == 0 {
        assert(format_children(n, src, indent, parent, 0) == Seq::<char>::empty());
        assert(format_node(n.children[0], src, indent, NodeKind::Dictionary, prev_sibling(n, 0)) == seq!['{']);
        assert(child_piece(n, src, indent, parent, 0) == seq!['{']);
        assert(child_piece(n, src, indent, parent, 1) == seq![' '] + items[0]);
        assert(items.take(1) =~= seq![items[0]]);
        assert(format_children(n, src, indent, parent, 1) =~= seq!['{']);
        assert(format_children(n, src, indent, parent, 2) =~= seq!['{', ' '] + items[0]);
    } else {
        lemma_dictionary_prefix(n, src, indent, parent, m, trailing, j - 1);
        assert(n.children[2 * j].kind == NodeKind::Comma);
        let e2 = n.children[2 * (j - 1) + 1].kind;
        assert(e2 != NodeKind::RightBrace);
        assert(items.take(j + 1).drop_last() =~= items.take(j));
        assert(format_node(n.children[2 * j], src, indent, NodeKind::Dictionary, prev_sibling(n, 2 * j)) == seq![',']);
        assert(child_piece(n, src, indent, parent, 2 * j) == seq![',']);
        assert(child_piece(n, src, indent, parent, 2 * j + 1) == seq![' '] + items[j]);
        assert(format_children(n, src, indent, parent, 2 * j + 1) == format_children(n, src, indent, parent, 2 * j)
            + seq![',']);
        assert(format_children(n, src, indent, parent, 2 * j + 2) =~= seq!['{', ' '] + comma_joined(items.take(j))
            + seq![','] + (seq![' '] + items[j]));
        assert(seq!['{', ' '] + comma_joined(items.take(j)) + seq![','] + (seq![' '] + items[j]) =~= seq!['{', ' ']
            + (comma_joined(items.take(j)) + seq![',', ' '] + items[j]));
    }
}

/// A dictionary with entries is written as `{ `, its entries joined by
/// `", "`, and ` }`: one space inside the braces and no trailing comma.
pub proof fn lemma_dictionary_format(n: SyntaxNode, src: Seq<char>, indent: nat, parent: NodeKind, m: int, trailing: bool)
    requires
        is_dictionary_shape(n, src, m, trailing),
        !is_plain_line(NodeKind::Dictionary, parent),
    ensures
        format_node(n, src, indent, parent, None) == seq!['{', ' '] + comma_joined(
            dictionary_entries(n, src, indent, m),
        ) + seq![' ', '}'],
{
    let items = dictionary_entries(n, src, indent, m);
    lemma_dictionary_prefix(n, src, indent, parent, m, trailing, m - 1);
    assert(items.take(m) =~= items);
    let last = n.children.len() - 1;
    assert(format_node(n.children[last], src, indent, NodeKind::Dictionary, prev_sibling(n, last)) == seq!['}']);
    assert(child_piece(n, src, indent, parent, last) == seq![' ', '}']);
    if trailing {
        assert(n.children[2 * m].kind == NodeKind::Comma);
        assert(child_piece(n, src, indent, parent, 2 * m) == Seq::<char>::empty());
        assert(format_children(n, src, indent, parent, 2 * m + 1) =~= format_children(n, src, indent, parent, 2 * m));
        assert(format_children(n, src, indent, parent, 2 * m + 2) =~= seq!['{', ' '] + comma_joined(items) + seq![' ', '}']);
    } else {
        assert(format_children(n, src, indent, parent, 2 * m + 1) =~= seq!['{', ' '] + comma_joined(items) + seq![' ', '}']);
    }
}

/// An empty dictionary is written `{}`.
pub proof fn lemma_empty_dictionary_format(n: SyntaxNode, src: Seq<char>, indent: nat, parent: NodeKind)
    requires
        n.kind == NodeKind::Dictionary,
        !is_plain_line(NodeKind::Dictionary, parent),
        n.children.len() == 2,
        n.children[0].kind == NodeKind::LeftBrace,
        trim(node_text(n.children[0], src)) == seq!['{'],
        n.children[1].kind == NodeKind::RightBrace,
        trim(node_text(n.children[1], src)) == seq!['}'],
    ensures
        format_node(n, src, indent, parent, None) == seq!['{', '}'],
{
    assert(format_node(n.children[0], src, indent, NodeKind::Dictionary, prev_sibling(n, 0)) == seq!['{']);
    assert(format_node(n.children[1], src, indent, NodeKind::Dictionary, prev_sibling(n, 1)) == seq!['}']);
    assert(child_piece(n, src, indent, parent, 0) == seq!['{']);
    assert(child_piece(n, src, indent, parent, 1) == seq!['}']);
    assert(format_children(n, src, indent, parent, 0) == Seq::<char>::empty());
    assert(format_children(n, src, indent, parent, 1) =~= seq!['{']);
    assert(format_children(n, src, indent, parent, 2) =~= seq!['{', '}']);
}

/// The formatted parameters of a parameter list `n` with `m` parameters,
/// one at every odd child index.
pub open spec fn parameter_list(n: SyntaxNode, src: Seq<char>, indent: nat, m: int) -> Seq<Seq<char>> {
    Seq::new(
        m as nat,
        |j: int| format_node(n.children[2 * j + 1], src, indent, NodeKind::Parameters, prev_sibling(n, 2 * j + 1)),
    )
}

/// A parameter list of `m` parameters: `(`, the parameters separated by
/// commas, a trailing comma when `trailing`, and `)`.
pub open spec fn is_parameters_shape(n: SyntaxNode, src: Seq<char>, m: int, trailing: bool) -> bool {
    let last = n.children.len() - 1;
    &&& n.kind == NodeKind::Parameters
    &&& m >= 1
    &&& n.children.len() == 2 * m + 1 + if trailing { 1int } else { 0 }
    &&& n.children[0].kind == NodeKind::LeftParen
    &&& trim(node_text(n.children[0], src)) == seq!['(']
    &&& n.children[last].kind == NodeKind::RightParen
    &&& trim(node_text(n.children[last], src)) == seq![')']
    &&& forall|j: int| 0 <= j < m ==> {
        let e = #[trigger] n.children[2 * j + 1].kind;
        e != NodeKind::Comma && e != NodeKind::LeftParen && e != NodeKind::RightParen && e
            != NodeKind::Equals
    }
    &&& forall|j: int| 1 <= j < m + if trailing { 1int } else { 0 } ==> (#[trigger] n.children[2 * j]).kind
        == NodeKind::Comma && trim(node_text(n.children[2 * j], src)) == seq![',']
}

proof fn lemma_parameters_prefix(n: SyntaxNode, src: Seq<char>, indent: nat, parent: NodeKind, m: int, trailing: bool, j: int)
    requires
        is_parameters_shape(n, src, m, trailing),
        0 <= j < m,
    ensures
        format_children(n, src, indent, parent, 2 * j + 2) == seq!['('] + comma_joined(
            parameter_list(n, src, indent, m).take(j + 1),
        ),
    decreases j,
{
    let items = parameter_list(n, src, indent, m);
    let e = n.children[2 * j + 1].kind;
    assert(e != NodeKind::Comma && e != NodeKind::LeftParen && e != NodeKind::RightParen && e
            != NodeKind::Equals);
    if j == 0 {
        assert(format_children(n, src, indent, parent, 0) == Seq::<char>::empty());
        assert(format_node(n.children[0], src, indent, NodeKind::Parameters, prev_sibling(n, 0)) == seq!['(']);
        assert(child_piece(n, src, indent, parent, 0) == seq!['(']);
        assert(child_piece(n, src, indent, parent, 1) == items[0]);
        assert(items.take(1) =~= seq![items[0]]);
        assert(format_children(n, src, indent, parent, 1) =~= seq!['(']);
        assert(format_children(n, src, indent, parent, 2) =~= seq!['('] + items[0]);
    } else {
        lemma_parameters_prefix(n, src, indent, parent, m, trailing, j - 1);
        assert(n.children[2 * j].kind == NodeKind::Comma);
        let e2 = n.children[2 * (j - 1) + 1].kind;
        assert(e2 != NodeKind::RightParen);
        assert(items.take(j + 1).drop_last() =~= items.take(j));
        assert(format_node(n.children[2 * j], src, indent, NodeKind::Parameters, prev_sibling(n, 2 * j)) == seq![',']);
        assert(child_piece(n, src, indent, parent, 2 * j) == seq![',']);
        assert(child_piece(n, src, indent, parent, 2 * j + 1) == seq![' '] + items[j]);
        assert(format_children(n, src, indent, parent, 2 * j + 1) == format_children(n, src, indent, parent, 2 * j)
            + seq![',']);
        assert(format_children(n, src, indent, parent, 2 * j + 2) =~= seq!['('] + comma_joined(items.take(j))
            + seq![','] + (seq![' '] + items[j]));
        assert(seq!['('] + comma_joined(items.take(j)) + seq![','] + (seq![' '] + items[j]) =~= seq!['(']
            + (comma_joined(items.take(j)) + seq![',', ' '] + items[j]));
    }
}

/// A parameter list is written as `(`, its parameters joined by `", "`, and
/// `)`: no space inside the parentheses.
pub proof fn lemma_parameters_format(n: SyntaxNode, src: Seq<char>, indent: nat, parent: NodeKind, m: int)
    requires
        is_parameters_shape(n, src, m, false),
        !is_plain_line(NodeKind::Parameters, parent),
    ensures
        format_node(n, src, indent, parent, None) == seq!['('] + comma_joined(parameter_list(n, src, indent, m))
            + seq![')'],
{
    let items = parameter_list(n, src, indent, m);
    lemma_parameters_prefix(n, src, indent, parent, m, false, m - 1);
    assert(items.take(m) =~= items);
    let last = n.children.len() - 1;
    assert(format_node(n.children[last], src, indent, NodeKind::Parameters, prev_sibling(n, last)) == seq![')']);
    assert(child_piece(n, src, indent, parent, last) == seq![')']);
    assert(format_children(n, src, indent, parent, 2 * m + 1) =~= seq!['('] + comma_joined(items) + seq![')']);
}

/// Parentheses are written as what they hold: the pair itself is put back
/// by an operator whose operand needs it (see [`keeps_parentheses`]).
pub proof fn lemma_parentheses_format(
    n: SyntaxNode,
    src: Seq<char>,
    indent: nat,
    context: NodeKind,
    prev: Option<Sibling>,
)
    requires
        n.kind == NodeKind::ParenthesizedExpression,
        !is_container(context),
        n.children.len() == 3,
        n.children[0].kind == NodeKind::LeftParen,
        n.children[2].kind == NodeKind::RightParen,
        n.children[1].kind != NodeKind::LeftParen && n.children[1].kind != NodeKind::RightParen,
    ensures
        format_node(n, src, indent, context, prev) == format_node(
            n.children[1],
            src,
            indent,
            NodeKind::ParenthesizedExpression,
            prev_sibling(n, 1),
        ),
{
    let e = format_node(n.children[1], src, indent, NodeKind::ParenthesizedExpression, prev_sibling(n, 1));
    assert(child_piece(n, src, indent, context, 0) == Seq::<char>::empty());
    assert(child_piece(n, src, indent, context, 1) == e);
    assert(child_piece(n, src, indent, context, 2) == Seq::<char>::empty());
    assert(format_children(n, src, indent, context, 0) == Seq::<char>::empty());
    assert(format_children(n, src, indent, context, 1) =~= Seq::<char>::empty());
    assert(format_children(n, src, indent, context, 2) =~= e);
    assert(format_children(n, src, indent, context, 3) =~= e);
}

/// A literal inside an expression is written in its normalized form:
/// integers grouped, floats with their zeros, strings requoted. (Directly
/// in a file or block, any node is a statement line of its own.)
pub proof fn lemma_literal_format(n: SyntaxNode, src: Seq<char>, indent: nat, parent: NodeKind, prev: Option<Sibling>)
    requires
        !is_container(parent),
    ensures
        n.kind == NodeKind::Integer ==> format_node(n, src, indent, parent, prev) == normalized_integer(
            node_text(n, src),
        ),
        n.kind == NodeKind::Float ==> format_node(n, src, indent, parent, prev) == normalized_float(
            node_text(n, src),
        ),
        n.kind == NodeKind::StringLiteral ==> format_node(n, src, indent, parent, prev) == normalized_string(
            node_text(n, src),
        ),
{
}

/// A unary operator: `!` and `not` are written `not ` before the operand,
/// a unary `+` is dropped, and any other operator is kept as written, right
/// before its operand.
pub proof fn lemma_unary_format(n: SyntaxNode, src: Seq<char>, indent: nat, context: NodeKind, prev: Option<Sibling>)
    requires
        n.kind == NodeKind::UnaryOperator,
        !is_container(context),
        n.children.len() == 2,
        n.children[0].kind == NodeKind::Bang || n.children[0].kind == NodeKind::NotKeyword
            || n.children[0].kind == NodeKind::Plus || n.children[0].kind == NodeKind::Minus
            || n.children[0].kind == NodeKind::Other,
        n.children[1].kind != NodeKind::Bang && n.children[1].kind != NodeKind::NotKeyword
            && n.children[1].kind != NodeKind::Plus,
    ensures
        format_node(n, src, indent, context, prev) == {
            let op = n.children[0].kind;
            let e = operand_text(
                unary_precedence(),
                true,
                n.children[1],
                format_node(n.children[1], src, indent, NodeKind::UnaryOperator, prev_sibling(n, 1)),
            );
            if op == NodeKind::Bang || op == NodeKind::NotKeyword {
                seq!['n', 'o', 't', ' '] + e
            } else if op == NodeKind::Plus {
                e
            } else {
                trim(node_text(n.children[0], src)) + e
            }
        },
{
    let e = operand_text(
        unary_precedence(),
        true,
        n.children[1],
        format_node(n.children[1], src, indent, NodeKind::UnaryOperator, prev_sibling(n, 1)),
    );
    assert(child_piece(n, src, indent, context, 1) == e);
    assert(format_children(n, src, indent, context, 0) == Seq::<char>::empty());
    assert(format_children(n, src, indent, context, 1) =~= child_piece(n, src, indent, context, 0));
    assert(format_children(n, src, indent, context, 2) =~= child_piece(n, src, indent, context, 0) + e);
    if n.children[0].kind == NodeKind::Other || n.children[0].kind == NodeKind::Minus {
        assert(format_node(n.children[0], src, indent, NodeKind::UnaryOperator, prev_sibling(n, 0)) == trim(
            node_text(n.children[0], src),
        ));
    }
}

/// A binary operator: its operands with one space on each side of the
/// operator; `&&` and `||` are spelled `and` and `or`; each operand keeps
/// one pair of parentheses exactly when [`keeps_parentheses`] says so.
pub proof fn lemma_binary_format(n: SyntaxNode, src: Seq<char>, indent: nat, context: NodeKind, prev: Option<Sibling>)
    requires
        n.kind == NodeKind::BinaryOperator,
        !is_container(context),
        n.children.len() == 3,
        n.children[0].kind != NodeKind::AndAnd && n.children[0].kind != NodeKind::OrOr,
        n.children[2].kind != NodeKind::AndAnd && n.children[2].kind != NodeKind::OrOr,
        n.children[1].kind != NodeKind::ParenthesizedExpression,
    ensures
        format_node(n, src, indent, context, prev) == {
            let left = operand_text(
                outer_precedence(n),
                false,
                n.children[0],
                format_node(n.children[0], src, indent, NodeKind::BinaryOperator, prev_sibling(n, 0)),
            );
            let op = n.children[1].kind;
            let right = operand_text(
                outer_precedence(n),
                true,
                n.children[2],
                format_node(n.children[2], src, indent, NodeKind::BinaryOperator, prev_sibling(n, 2)),
            );
            let word = if op == NodeKind::AndAnd {
                seq!['a', 'n', 'd']
            } else if op == NodeKind::OrOr {
                seq!['o', 'r']
            } else {
                format_node(n.children[1], src, indent, NodeKind::BinaryOperator, prev_sibling(n, 1))
            };
            left + seq![' '] + word + seq![' '] + right
        },
{
    assert(format_children(n, src, indent, context, 0) == Seq::<char>::empty());
    assert(format_children(n, src, indent, context, 1) =~= child_piece(n, src, indent, context, 0));
    assert(format_children(n, src, indent, context, 2) =~= child_piece(n, src, indent, context, 0)
        + child_piece(n, src, indent, context, 1));
    let left = operand_text(
        outer_precedence(n),
        false,
        n.children[0],
        format_node(n.children[0], src, indent, NodeKind::BinaryOperator, prev_sibling(n, 0)),
    );
    let right = operand_text(
        outer_precedence(n),
        true,
        n.children[2],
        format_node(n.children[2], src, indent, NodeKind::BinaryOperator, prev_sibling(n, 2)),
    );
    let op = n.children[1].kind;
    let word = if op == NodeKind::AndAnd {
        seq!['a', 'n', 'd']
    } else if op == NodeKind::OrOr {
        seq!['o', 'r']
    } else {
        format_node(n.children[1], src, indent, NodeKind::BinaryOperator, prev_sibling(n, 1))
    };
    assert(child_piece(n, src, indent, context, 0) == left);
    assert(child_piece(n, src, indent, context, 1) =~= seq![' '] + word);
    assert(child_piece(n, src, indent, context, 2) == seq![' '] + right);
    assert(format_children(n, src, indent, context, 3) =~= left + seq![' '] + word + seq![' '] + right);
}

/// The lines of the first `j` enumerators of an enumerator list `n`: each
/// on a line of its own, one level deeper than the list, with a comma.
pub open spec fn enumerator_lines(n: SyntaxNode, src: Seq<char>, indent: nat, j: int) -> Seq<char>
    decreases j,
{
    if j <= 0 {
        Seq::empty()
    } else {
        enumerator_lines(n, src, indent, j - 1) + seq!['\n'] + tabs(indent + 1) + format_node(
            n.children[2 * (j - 1) + 1],
            src,
            indent,
            NodeKind::EnumeratorList,
            prev_sibling(n, 2 * (j - 1) + 1),
        ) + seq![',']
    }
}

/// An enumerator list of `m` enumerators: `{`, the enumerators separated by
/// commas, an optional trailing comma, and `}`.
pub open spec fn is_enumerator_list_shape(n: SyntaxNode, src: Seq<char>, m: int, trailing: bool) -> bool {
    let last = n.children.len() - 1;
    &&& n.kind == NodeKind::EnumeratorList
    &&& m >= 1
    &&& n.children.len() == 2 * m + 1 + if trailing { 1int } else { 0 }
    &&& n.children[0].kind == NodeKind::LeftBrace
    &&& trim(node_text(n.children[0], src)) == seq!['{']
    &&& n.children[last].kind == NodeKind::RightBrace
    &&& trim(node_text(n.children[last], src)) == seq!['}']
    &&& forall|j: int| 0 <= j < m ==> (#[trigger] n.children[2 * j + 1]).kind == NodeKind::Enumerator
    &&& forall|j: int| 1 <= j < m + if trailing { 1int } else { 0 } ==> (#[trigger] n.children[2 * j]).kind
        == NodeKind::Comma && trim(node_text(n.children[2 * j], src)) == seq![',']
}

proof fn lemma_enumerator_list_prefix(
    n: SyntaxNode,
    src: Seq<char>,
    indent: nat,
    parent: NodeKind,
    m: int,
    trailing: bool,
    j: int,
)
    requires
        is_enumerator_list_shape(n, src, m, trailing),
        0 <= j < m,
    ensures
        format_children(n, src, indent, parent, 2 * j + 2) == seq!['{'] + enumerator_lines(n, src, indent, j)
            + seq!['\n'] + tabs(indent + 1) + format_node(
            n.children[2 * j + 1],
            src,
            indent,
            NodeKind::EnumeratorList,
            prev_sibling(n, 2 * j + 1),
        ),
    decreases j,
{
    let e = format_node(n.children[2 * j + 1], src, indent, NodeKind::EnumeratorList, prev_sibling(n, 2 * j + 1));
    assert(n.children[2 * j + 1].kind == NodeKind::Enumerator);
    assert(child_piece(n, src, indent, parent, 2 * j + 1) == seq!['\n'] + tabs(indent + 1) + e);
    if j == 0 {
        assert(format_children(n, src, indent, parent, 0) == Seq::<char>::empty());
        assert(format_node(n.children[0], src, indent, NodeKind::EnumeratorList, prev_sibling(n, 0)) == seq!['{']);
        assert(child_piece(n, src, indent, parent, 0) == seq!['{']);
        assert(format_children(n, src, indent, parent, 1) =~= seq!['{']);
        assert(enumerator_lines(n, src, indent, 0) == Seq::<char>::empty());
        assert(format_children(n, src, indent, parent, 2) =~= seq!['{'] + enumerator_lines(n, src, indent, 0)
            + seq!['\n'] + tabs(indent + 1) + e);
    } else {
        lemma_enumerator_list_prefix(n, src, indent, parent, m, trailing, j - 1);
        assert(n.children[2 * j].kind == NodeKind::Comma);
        assert(format_node(n.children[2 * j], src, indent, NodeKind::EnumeratorList, prev_sibling(n, 2 * j)) == seq![',']);
        assert(child_piece(n, src, indent, parent, 2 * j) == seq![',']);
        assert(format_children(n, src, indent, parent, 2 * j + 1) == format_children(n, src, indent, parent, 2 * j)
            + seq![',']);
        assert(format_children(n, src, indent, parent, 2 * j + 2) =~= seq!['{'] + enumerator_lines(n, src, indent, j)
            + seq!['\n'] + tabs(indent + 1) + e);
    }
}

/// An enumerator list is written as `{`, then each enumerator on a line of
/// its own one level deeper, each followed by a comma (whether or not the
/// source had one), then `}` on a line of its own at the list's level.
pub proof fn lemma_enumerator_list_format(
    n: SyntaxNode,
    src: Seq<char>,
    indent: nat,
    parent: NodeKind,
    m: int,
    trailing: bool,
)
    requires
        is_enumerator_list_shape(n, src, m, trailing),
        !is_plain_line(NodeKind::EnumeratorList, parent),
    ensures
        format_node(n, src, indent, parent, None) == seq!['{'] + enumerator_lines(n, src, indent, m) + seq!['\n']
            + tabs(indent) + seq!['}'],
{
    lemma_enumerator_list_prefix(n, src, indent, parent, m, trailing, m - 1);
    let last = n.children.len() - 1;
    let lines = enumerator_lines(n, src, indent, m);
    assert(format_node(n.children[last], src, indent, NodeKind::EnumeratorList, prev_sibling(n, last)) == seq!['}']);
    if trailing {
        assert(n.children[2 * m].kind == NodeKind::Comma);
        assert(format_node(n.children[2 * m], src, indent, NodeKind::EnumeratorList, prev_sibling(n, 2 * m)) == seq![',']);
        assert(child_piece(n, src, indent, parent, 2 * m) == seq![',']);
        assert(child_piece(n, src, indent, parent, last) == seq!['\n'] + tabs(indent) + seq!['}']);
        assert(format_children(n, src, indent, parent, 2 * m + 1) =~= seq!['{'] + lines);
        assert(format_children(n, src, indent, parent, 2 * m + 2) =~= seq!['{'] + lines + seq!['\n'] + tabs(indent)
            + seq!['}']);
    } else {
        assert(child_piece(n, src, indent, parent, last) == seq![','] + seq!['\n'] + tabs(indent) + seq!['}']);
        assert(format_children(n, src, indent, parent, 2 * m + 1) =~= seq!['{'] + lines + seq!['\n'] + tabs(indent)
            + seq!['}']);
    }
}

/// The text of child `i` of `n`, as `n`'s rule formats it at `indent`.
pub open spec fn child_text(n: SyntaxNode, src: Seq<char>, indent: nat, parent: NodeKind, i: int) -> Seq<char> {
    format_node(
        n.children[i],
        src,
        child_indent(n.kind, n.children[i].kind, indent),
        n.kind,
        prev_sibling(n, i),
    )
}

/// The short form of a variable's accessors: `:`, then on the next line,
/// one level deeper, `set = f` or `get = f`, and optionally `, ` and the
/// other one in the same form.
pub proof fn lemma_setget_short_format(
    n: SyntaxNode,
    src: Seq<char>,
    indent: nat,
    parent: NodeKind,
    prev: Option<Sibling>,
    both: bool,
)
    requires
        n.kind == NodeKind::Setget,
        !is_container(parent),
        n.children.len() == if both { 8int } else { 4int },
        n.children[0].kind == NodeKind::Colon,
        trim(node_text(n.children[0], src)) == seq![':'],
        n.children[1].kind == NodeKind::SetKeyword || n.children[1].kind == NodeKind::GetKeyword,
        n.children[2].kind == NodeKind::Equals,
        trim(node_text(n.children[2], src)) == seq!['='],
        n.children[3].kind == NodeKind::Setter || n.children[3].kind == NodeKind::Getter,
        both ==> n.children[4].kind == NodeKind::Comma && trim(node_text(n.children[4], src)) == seq![','],
        both ==> n.children[5].kind == NodeKind::SetKeyword || n.children[5].kind == NodeKind::GetKeyword,
        both ==> n.children[6].kind == NodeKind::Equals && trim(node_text(n.children[6], src)) == seq!['='],
        both ==> n.children[7].kind == NodeKind::Setter || n.children[7].kind == NodeKind::Getter,
    ensures
        format_node(n, src, indent, parent, prev) == {
            let first = trim(node_text(n.children[1], src)) + seq![' ', '=', ' '] + child_text(n, src, indent, parent, 3);
            let second = trim(node_text(n.children[5], src)) + seq![' ', '=', ' '] + child_text(n, src, indent, parent, 7);
            seq![':', '\n'] + tabs(indent) + first + if both {
                seq![',', ' '] + second
            } else {
                Seq::empty()
            }
        },
{
    let first = trim(node_text(n.children[1], src)) + seq![' ', '=', ' '] + child_text(n, src, indent, parent, 3);
    let second = trim(node_text(n.children[5], src)) + seq![' ', '=', ' '] + child_text(n, src, indent, parent, 7);
    assert(child_text(n, src, indent, parent, 0) == seq![':']);
    assert(child_text(n, src, indent, parent, 1) == trim(node_text(n.children[1], src)));
    assert(child_text(n, src, indent, parent, 2) == seq!['=']);
    assert(child_piece(n, src, indent, parent, 0) =~= seq![':', '\n']);
    assert(child_piece(n, src, indent, parent, 1) == tabs(indent) + trim(node_text(n.children[1], src)));
    assert(child_piece(n, src, indent, parent, 2) =~= seq![' ', '=']);
    assert(child_piece(n, src, indent, parent, 3) == seq![' '] + child_text(n, src, indent, parent, 3));
    assert(format_children(n, src, indent, parent, 0) == Seq::<char>::empty());
    assert(format_children(n, src, indent, parent, 1) =~= seq![':', '\n']);
    assert(format_children(n, src, indent, parent, 2) =~= seq![':', '\n'] + tabs(indent) + trim(
        node_text(n.children[1], src),
    ));
    assert(format_children(n, src, indent, parent, 3) =~= seq![':', '\n'] + tabs(indent) + trim(
        node_text(n.children[1], src),
    ) + seq![' ', '=']);
    assert(format_children(n, src, indent, parent, 4) =~= seq![':', '\n'] + tabs(indent) + first);
    if both {
        assert(child_text(n, src, indent, parent, 4) == seq![',']);
        assert(child_text(n, src, indent, parent, 5) == trim(node_text(n.children[5], src)));
        assert(child_text(n, src, indent, parent, 6) == seq!['=']);
        assert(child_piece(n, src, indent, parent, 4) == seq![',']);
        assert(child_piece(n, src, indent, parent, 5) == seq![' '] + trim(node_text(n.children[5], src)));
        assert(child_piece(n, src, indent, parent, 6) =~= seq![' ', '=']);
        assert(child_piece(n, src, indent, parent, 7) == seq![' '] + child_text(n, src, indent, parent, 7));
        assert(format_children(n, src, indent, parent, 5) =~= seq![':', '\n'] + tabs(indent) + first + seq![',']);
        assert(format_children(n, src, indent, parent, 6) =~= seq![':', '\n'] + tabs(indent) + first + seq![',']
            + seq![' '] + trim(node_text(n.children[5], src)));
        assert(format_children(n, src, indent, parent, 7) =~= seq![':', '\n'] + tabs(indent) + first + seq![',']
            + seq![' '] + trim(node_text(n.children[5], src)) + seq![' ', '=']);
        assert(format_children(n, src, indent, parent, 8) =~= seq![':', '\n'] + tabs(indent) + first + (seq![
            ',',
            ' ',
        ] + second));
    } else {
        assert(format_children(n, src, indent, parent, 4) =~= seq![':', '\n'] + tabs(indent) + first + Seq::<
            char,
        >::empty());
    }
}

/// The block form of an accessor: at its indentation, `set(v):` or `get:`,
/// then its body one level deeper.
pub proof fn lemma_accessor_body_format(
    n: SyntaxNode,
    src: Seq<char>,
    indent: nat,
    parent: NodeKind,
    prev: Option<Sibling>,
)
    requires
        n.kind == NodeKind::SetBody || n.kind == NodeKind::GetBody,
        !is_container(parent),
        n.children.len() == 3 || n.children.len() == 4,
        n.children[0].kind == NodeKind::SetKeyword || n.children[0].kind == NodeKind::GetKeyword,
        n.children.len() == 4 ==> n.children[1].kind == NodeKind::Parameters,
        n.children[n.children.len() - 2].kind == NodeKind::Colon,
        trim(node_text(n.children[n.children.len() - 2], src)) == seq![':'],
        n.children[n.children.len() - 1].kind == NodeKind::Body,
    ensures
        format_node(n, src, indent, parent, prev) == {
            let params = if n.children.len() == 4 {
                child_text(n, src, indent, parent, 1)
            } else {
                Seq::empty()
            };
            tabs(indent) + trim(node_text(n.children[0], src)) + params + seq![':', '\n'] + format_node(
                n.children[n.children.len() - 1],
                src,
                indent + 1,
                n.kind,
                prev_sibling(n, n.children.len() - 1),
            )
        },
{
    let len = n.children.len() as int;
    let kw = trim(node_text(n.children[0], src));
    let body = format_node(n.children[len - 1], src, indent + 1, n.kind, prev_sibling(n, len - 1));
    let params = if len == 4 { child_text(n, src, indent, parent, 1) } else { Seq::empty() };
    assert(child_piece(n, src, indent, parent, 0) == kw);
    assert(child_text(n, src, indent, parent, len - 2) == seq![':']);
    assert(child_piece(n, src, indent, parent, len - 2) =~= seq![':', '\n']);
    assert(child_piece(n, src, indent, parent, len - 1) == body);
    assert(format_children(n, src, indent, parent, 0) == Seq::<char>::empty());
    assert(format_children(n, src, indent, parent, 1) =~= kw);
    if len == 4 {
        assert(child_piece(n, src, indent, parent, 1) == params);
        assert(format_children(n, src, indent, parent, 2) =~= kw + params);
    } else {
        assert(format_children(n, src, indent, parent, 1) =~= kw + params);
    }
    assert(format_children(n, src, indent, parent, len - 1) =~= kw + params + seq![':', '\n']);
    assert(format_children(n, src, indent, parent, len) =~= kw + params + seq![':', '\n'] + body);
    assert(tabs(indent) + (kw + params + seq![':', '\n'] + body) =~= tabs(indent) + kw + params + seq![':', '\n']
        + body);
}

/// A function or constructor definition `func name(params):` followed by its
/// body: after its gap lines and indentation, the keyword, one space, the
/// name, the parameter list and the colon with no space between them, then
/// the body on the next lines, one level deeper.
pub proof fn lemma_function_format(
    n: SyntaxNode,
    src: Seq<char>,
    indent: nat,
    parent: NodeKind,
    prev: Option<Sibling>,
)
    requires
        n.kind == NodeKind::FunctionDefinition || n.kind == NodeKind::ConstructorDefinition,
        n.children.len() == 5,
        n.children[0].kind == NodeKind::Other,
        n.children[1].kind == NodeKind::Other,
        n.children[2].kind == NodeKind::Parameters,
        n.children[3].kind == NodeKind::Colon,
        trim(node_text(n.children[3], src)) == seq![':'],
        n.children[4].kind == NodeKind::Body,
    ensures
        format_node(n, src, indent, parent, prev) == gap_lines(n.kind, n.start as nat, parent, prev, src) + tabs(
            indent,
        ) + trim(node_text(n.children[0], src)) + seq![' '] + trim(node_text(n.children[1], src))
            + child_text(n, src, indent, parent, 2) + seq![':', '\n'] + format_node(
            n.children[4],
            src,
            indent + 1,
            n.kind,
            prev_sibling(n, 4),
        ),
{
    let kw = trim(node_text(n.children[0], src));
    let name = trim(node_text(n.children[1], src));
    let params = child_text(n, src, indent, parent, 2);
    let body = format_node(n.children[4], src, indent + 1, n.kind, prev_sibling(n, 4));
    assert(child_piece(n, src, indent, parent, 0) == kw);
    assert(child_piece(n, src, indent, parent, 1) == seq![' '] + name);
    assert(child_piece(n, src, indent, parent, 2) == params);
    assert(child_piece(n, src, indent, parent, 3) == seq![':']);
    assert(child_piece(n, src, indent, parent, 4) == seq!['\n'] + body);
    assert(format_children(n, src, indent, parent, 0) == Seq::<char>::empty());
    assert(format_children(n, src, indent, parent, 1) =~= kw);
    assert(format_children(n, src, indent, parent, 2) =~= kw + seq![' '] + name);
    assert(format_children(n, src, indent, parent, 3) =~= kw + seq![' '] + name + params);
    assert(format_children(n, src, indent, parent, 4) =~= kw + seq![' '] + name + params + seq![':']);
    assert(format_children(n, src, indent, parent, 5) =~= kw + seq![' '] + name + params + seq![':', '\n'] + body);
    let head = gap_lines(n.kind, n.start as nat, parent, prev, src) + tabs(indent);
    assert(head + (kw + seq![' '] + name + params + seq![':', '\n'] + body) =~= head + kw + seq![' '] + name + params
        + seq![':', '\n'] + body);
}

/// A class definition `class Name:` followed by its body: after its gap
/// lines and indentation, the keyword, one space, the name and the colon,
/// then the body on the next lines, one level deeper.
pub proof fn lemma_class_format(
    n: SyntaxNode,
    src: Seq<char>,
    indent: nat,
    parent: NodeKind,
    prev: Option<Sibling>,
)
    requires
        n.kind == NodeKind::ClassDefinition,
        n.children.len() == 4,
        n.children[0].kind == NodeKind::Other,
        n.children[1].kind == NodeKind::Other,
        n.children[2].kind == NodeKind::Colon,
        trim(node_text(n.children[2], src)) == seq![':'],
        n.children[3].kind == NodeKind::ClassBody,
    ensures
        format_node(n, src, indent, parent, prev) == gap_lines(n.kind, n.start as nat, parent, prev, src) + tabs(
            indent,
        ) + trim(node_text(n.children[0], src)) + seq![' '] + trim(node_text(n.children[1], src)) + seq![
            ':',
            '\n',
        ] + format_node(n.children[3], src, indent + 1, n.kind, prev_sibling(n, 3)),
{
    let kw = trim(node_text(n.children[0], src));
    let name = trim(node_text(n.children[1], src));
    let body = format_node(n.children[3], src, indent + 1, n.kind, prev_sibling(n, 3));
    assert(child_piece(n, src, indent, parent, 0) == kw);
    assert(child_piece(n, src, indent, parent, 1) == seq![' '] + name);
    assert(child_piece(n, src, indent, parent, 2) == seq![':']);
    assert(child_piece(n, src, indent, parent, 3) == seq!['\n'] + body);
    assert(format_children(n, src, indent, parent, 0) == Seq::<char>::empty());
    assert(format_children(n, src, indent, parent, 1) =~= kw);
    assert(format_children(n, src, indent, parent, 2) =~= kw + seq![' '] + name);
    assert(format_children(n, src, indent, parent, 3) =~= kw + seq![' '] + name + seq![':']);
    assert(format_children(n, src, indent, parent, 4) =~= kw + seq![' '] + name + seq![':', '\n'] + body);
    let head = gap_lines(n.kind, n.start as nat, parent, prev, src) + tabs(indent);
    assert(head + (kw + seq![' '] + name + seq![':', '\n'] + body) =~= head + kw + seq![' '] + name + seq![':', '\n']
        + body);
}

/// What a child of a well-formed, depth-bounded node inherits.
proof fn lemma_child(n: SyntaxNode, len: nat, d: nat, i: int)
    requires
        well_formed(n, len),
        depth_within(n, d),
        0 <= i < n.children.len(),
    ensures
        well_formed(n.children[i], len),
        depth_within(n.children[i], (d - 1) as nat),
        depth_within(n.children[i], d),
        d > 0,
        i > 0 ==> n.children[i - 1].end <= n.children[i].start,
{
    lemma_depth_within_grows(n.children[i], (d - 1) as nat, d);
    if i > 0 {
        assert(n.children[i - 1].end <= n.children[i - 1 + 1].start);
    }
}

fn is_container_kind(k: NodeKind) -> (r: bool)
    ensures
        r == is_container(k),
{
    k == NodeKind::Source || k == NodeKind::Body || k == NodeKind::ClassBody
}

fn is_block_kind(k: NodeKind) -> (r: bool)
    ensures
        r == is_block(k),
{
    k == NodeKind::Body || k == NodeKind::ClassBody
}

fn has_statement_rule_kind(k: NodeKind) -> (r: bool)
    ensures
        r == has_statement_rule(k),
{
    k == NodeKind::VariableStatement || k == NodeKind::FunctionDefinition
        || k == NodeKind::ConstructorDefinition || k == NodeKind::ClassDefinition
        || k == NodeKind::EnumDefinition
}

fn precedence_in_table(op: NodeKind, unknown: u64) -> (r: u64)
    requires
        unknown <= 100,
    ensures
        r as nat == match operator_precedence(op) {
            Some(p) => p,
            None => unknown as nat,
        },
{
    match op {
        NodeKind::OrOr | NodeKind::OrKeyword => 3,
        NodeKind::AndAnd | NodeKind::AndKeyword => 4,
        NodeKind::InKeyword | NodeKind::NotKeyword => 5,
        NodeKind::Less | NodeKind::LessEqual | NodeKind::EqualEqual | NodeKind::NotEqual
        | NodeKind::GreaterEqual | NodeKind::Greater => 6,
        NodeKind::Pipe => 7,
        NodeKind::Ampersand => 8,
        NodeKind::Caret => 9,
        NodeKind::ShiftLeft | NodeKind::ShiftRight => 10,
        NodeKind::Plus | NodeKind::Minus => 11,
        NodeKind::Star | NodeKind::Slash | NodeKind::StarStar | NodeKind::Percent => 12,
        NodeKind::IsKeyword => 15,
        NodeKind::AsKeyword => 16,
        _ => unknown,
    }
}

fn outer_precedence_of(n: &SyntaxNode) -> (r: u64)
    ensures
        r as nat == outer_precedence(*n),
{
    if n.kind == NodeKind::BinaryOperator {
        let op = if n.children.len() >= 2 { n.children[1].kind } else { NodeKind::Other };
        precedence_in_table(op, 99)
    } else {
        14
    }
}

fn binding_of(e: &SyntaxNode) -> (r: u64)
    ensures
        r as nat == binding(*e),
{
    if e.kind == NodeKind::BinaryOperator {
        let op = if e.children.len() >= 2 { e.children[1].kind } else { NodeKind::Other };
        precedence_in_table(op, 0)
    } else if e.kind == NodeKind::UnaryOperator {
        14
    } else if e.kind == NodeKind::ConditionalExpression || e.kind == NodeKind::AwaitExpression
        || e.kind == NodeKind::Lambda {
        0
    } else {
        100
    }
}

fn innermost_of(e: &SyntaxNode) -> (r: &SyntaxNode)
    ensures
        *r == innermost(*e),
    decreases e,
{
    if e.kind == NodeKind::ParenthesizedExpression && e.children.len() >= 2 {
        innermost_of(&e.children[1])
    } else {
        e
    }
}

fn keeps_parentheses_of(outer: u64, right: bool, c: &SyntaxNode) -> (r: bool)
    ensures
        r == keeps_parentheses(outer as nat, right, *c),
{
    if c.kind != NodeKind::ParenthesizedExpression {
        return false;
    }
    let b = binding_of(innermost_of(c));
    b < outer || (b == outer && right)
}

fn child_indent_of(parent: NodeKind, child: NodeKind, indent: usize) -> (r: usize)
    requires
        indent < usize::MAX,
    ensures
        r as nat == child_indent(parent, child, indent as nat),
{
    if parent == NodeKind::VariableStatement {
        indent + 1
    } else if (parent == NodeKind::FunctionDefinition || parent == NodeKind::ConstructorDefinition
        || parent == NodeKind::ClassDefinition || parent == NodeKind::SetBody
        || parent == NodeKind::GetBody) && is_block_kind(child) {
        indent + 1
    } else {
        indent
    }
}

/// Formats `node` at `indent` levels of indentation, given the kind of its
/// parent and its previous sibling.
pub fn apply(
    node: &SyntaxNode,
    source: &Vec<char>,
    indent: usize,
    parent: NodeKind,
    prev: Option<Sibling>,
) -> (r: Vec<char>)
    requires
        well_formed(*node, source@.len()),
        depth_within(*node, (usize::MAX - indent) as nat),
        prev matches Some(p) ==> p.end <= node.start,
    ensures
        r@ == format_node(*node, source@, indent as nat, parent, prev),
    decreases node, 2nat,
{
    let kind = node.kind;
    if kind == NodeKind::Comment || (is_container_kind(parent) && !has_statement_rule_kind(kind)) {
        let mut r = get_gap_lines(kind, node.start, parent, prev, source);
        push_tabs(&mut r, indent);
        let text = get_node_text(node, source);
        push_all(&mut r, &trim_chars(&text));
        r.push('\n');
        return r;
    }
    match kind {
        NodeKind::Source => {
            let mut r = apply_children(node, source, indent, parent);
            end_with_one_newline(&mut r);
            r
        },
        NodeKind::FunctionDefinition | NodeKind::ConstructorDefinition
        | NodeKind::ClassDefinition | NodeKind::VariableStatement | NodeKind::EnumDefinition => {
            let mut r = get_gap_lines(kind, node.start, parent, prev, source);
            push_tabs(&mut r, indent);
            let children = apply_children(node, source, indent, parent);
            push_all(&mut r, &children);
            if kind == NodeKind::EnumDefinition {
                r.push('\n');
            } else if kind == NodeKind::VariableStatement {
                if r.len() == 0 || r[r.len() - 1] != '\n' {
                    r.push('\n');
                }
            }
            r
        },
        NodeKind::SetBody | NodeKind::GetBody => {
            let mut r: Vec<char> = Vec::new();
            push_tabs(&mut r, indent);
            let children = apply_children(node, source, indent, parent);
            push_all(&mut r, &children);
            r
        },
        NodeKind::Integer => normalize_integer(&get_node_text(node, source)),
        NodeKind::Float => normalize_float(&get_node_text(node, source)),
        NodeKind::StringLiteral => normalize_string(&get_node_text(node, source)),
        NodeKind::Body | NodeKind::ClassBody | NodeKind::Setget | NodeKind::EnumeratorList
        | NodeKind::Enumerator | NodeKind::Parameters | NodeKind::DefaultParameter
        | NodeKind::ParenthesizedExpression | NodeKind::Annotations | NodeKind::Annotation
        | NodeKind::UnaryOperator | NodeKind::BinaryOperator | NodeKind::Array
        | NodeKind::Dictionary | NodeKind::Pair => apply_children(node, source, indent, parent),
        _ => trim_chars(&get_node_text(node, source)),
    }
}

/// Formats the children of `node` one after the other.
fn apply_children(node: &SyntaxNode, source: &Vec<char>, indent: usize, parent: NodeKind) -> (r:
    Vec<char>)
    requires
        well_formed(*node, source@.len()),
        depth_within(*node, (usize::MAX - indent) as nat),
    ensures
        r@ == format_children(*node, source@, indent as nat, parent, node.children.len() as int),
    decreases node, 1nat,
{
    let mut r: Vec<char> = Vec::new();
    let mut i: usize = 0;
    while i < node.children.len()
        invariant
            i <= node.children.len(),
            well_formed(*node, source@.len()),
            depth_within(*node, (usize::MAX - indent) as nat),
            r@ == format_children(*node, source@, indent as nat, parent, i as int),
        decreases node.children.len() - i,
    {
        let piece = apply_child(node, i, source, indent, parent);
        push_all(&mut r, &piece);
        i = i + 1;
    }
    r
}

/// Formats child `i` of `node`, with the separator that `node`'s rule puts
/// before it.
fn apply_child(node: &SyntaxNode, i: usize, source: &Vec<char>, indent: usize, parent: NodeKind) -> (r:
    Vec<char>)
    requires
        well_formed(*node, source@.len()),
        depth_within(*node, (usize::MAX - indent) as nat),
        i < node.children.len(),
    ensures
        r@ == child_piece(*node, source@, indent as nat, parent, i as int),
    decreases node, 0nat,
{
    proof {
        lemma_child(*node, source@.len(), (usize::MAX - indent) as nat, i as int);
    }
    let kind = node.kind;
    let c = &node.children[i];
    let ck = c.kind;
    let pk: Option<NodeKind> = if i > 0 { Some(node.children[i - 1].kind) } else { None };
    let nk: Option<NodeKind> = if i + 1 < node.children.len() {
        Some(node.children[i + 1].kind)
    } else {
        None
    };
    let prev: Option<Sibling> = if i > 0 {
        Some(Sibling { kind: node.children[i - 1].kind, end: node.children[i - 1].end })
    } else {
        None
    };
    let mut r: Vec<char> = Vec::new();
    // boolean operators are spelled out
    if kind == NodeKind::UnaryOperator && (ck == NodeKind::Bang || ck == NodeKind::NotKeyword) {
        r.push('n');
        r.push('o');
        r.push('t');
        r.push(' ');
        assert(r@ =~= child_piece(*node, source@, indent as nat, parent, i as int));
        return r;
    }
    if kind == NodeKind::BinaryOperator && ck == NodeKind::AndAnd {
        r.push(' ');
        r.push('a');
        r.push('n');
        r.push('d');
        assert(r@ =~= child_piece(*node, source@, indent as nat, parent, i as int));
        return r;
    }
    if kind == NodeKind::BinaryOperator && ck == NodeKind::OrOr {
        r.push(' ');
        r.push('o');
        r.push('r');
        assert(r@ =~= child_piece(*node, source@, indent as nat, parent, i as int));
        return r;
    }
    // dropped: unary plus, a trailing comma, the tokens of parentheses (an
    // operator puts back the pair its operand needs)
    if (kind == NodeKind::UnaryOperator && ck == NodeKind::Plus) || (kind == NodeKind::Array && ck
        == NodeKind::Comma && nk == Some(NodeKind::RightBracket)) || (kind == NodeKind::Dictionary
        && ck == NodeKind::Comma && nk == Some(NodeKind::RightBrace)) || (kind
        == NodeKind::ParenthesizedExpression && (ck == NodeKind::LeftParen || ck
        == NodeKind::RightParen)) {
        assert(r@ =~= child_piece(*node, source@, indent as nat, parent, i as int));
        return r;
    }
    let ci = child_indent_of(kind, ck, indent);
    let s = apply(c, source, ci, kind, prev);
    // a single space before the child, where the parent's rule puts one
    let space = match kind {
        NodeKind::FunctionDefinition | NodeKind::ConstructorDefinition => !is_block_kind(ck) && !(i
            == 0 || ck == NodeKind::Parameters || ck == NodeKind::Colon),
        NodeKind::ClassDefinition => !is_block_kind(ck) && !(i == 0 || ck == NodeKind::Colon),
        NodeKind::VariableStatement => !(i == 0 || ck == NodeKind::Colon || ck == NodeKind::Setget),
        NodeKind::Setget => (ck == NodeKind::SetKeyword || ck == NodeKind::GetKeyword) && pk
            != Some(NodeKind::Colon) || ck == NodeKind::Equals || ck == NodeKind::Setter || ck
            == NodeKind::Getter,
        NodeKind::EnumDefinition | NodeKind::Enumerator => i != 0,
        NodeKind::Pair => !(i == 0 || ck == NodeKind::Colon),
        NodeKind::Parameters => !(ck == NodeKind::LeftParen || ck == NodeKind::RightParen || ck
            == NodeKind::Equals || ck == NodeKind::Comma || pk == Some(NodeKind::LeftParen)),
        NodeKind::Annotations => i > 0 && ck == NodeKind::Annotation,
        NodeKind::BinaryOperator => i > 0,
        NodeKind::Array => !(ck == NodeKind::LeftBracket || ck == NodeKind::RightBracket || ck
            == NodeKind::Comma || pk == Some(NodeKind::LeftBracket)),
        NodeKind::Dictionary => (ck == NodeKind::RightBrace && pk != Some(NodeKind::LeftBrace)) || !(
        ck == NodeKind::LeftBrace || ck == NodeKind::RightBrace || ck == NodeKind::Comma),
        _ => false,
    };
    if space {
        r.push(' ');
    }
    // line breaks and indentation before the child
    if (kind == NodeKind::FunctionDefinition || kind == NodeKind::ConstructorDefinition || kind
        == NodeKind::ClassDefinition) && is_block_kind(ck) {
        r.push('\n');
    }
    if kind == NodeKind::Setget && (ck == NodeKind::SetKeyword || ck == NodeKind::GetKeyword) && pk
        == Some(NodeKind::Colon) {
        push_tabs(&mut r, indent);
    }
    if kind == NodeKind::EnumeratorList && ck == NodeKind::Enumerator {
        r.push('\n');
        push_tabs(&mut r, indent + 1);
    }
    if kind == NodeKind::EnumeratorList && ck == NodeKind::RightBrace && pk != Some(
        NodeKind::LeftBrace,
    ) {
        if pk == Some(NodeKind::Enumerator) {
            r.push(',');
        }
        r.push('\n');
        push_tabs(&mut r, indent);
    }
    // an operand that needs its parentheses keeps one pair of them
    let keep = if kind == NodeKind::UnaryOperator {
        keeps_parentheses_of(14, true, c)
    } else if kind == NodeKind::BinaryOperator {
        keeps_parentheses_of(outer_precedence_of(node), i > 0, c)
    } else {
        false
    };
    if keep {
        r.push('(');
    }
    push_all(&mut r, &s);
    if keep {
        r.push(')');
    }
    // an accessor's colon ends its line
    if (kind == NodeKind::Setget || kind == NodeKind::SetBody || kind == NodeKind::GetBody) && ck
        == NodeKind::Colon {
        r.push('\n');
    }
    assert(r@ =~= child_piece(*node, source@, indent as nat, parent, i as int));
    r
}

} // verus!
