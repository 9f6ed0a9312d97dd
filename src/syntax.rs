//! The syntax tree the formatting rules read: a plain tree of node kinds and
//! character ranges into the source text.
use vstd::prelude::*;

verus! {

/// The kinds of syntax nodes the rules tell apart. Every other kind of the
/// grammar is `Other`.
#[derive(PartialEq, Eq, Structural, Clone, Copy, Debug)]
pub enum NodeKind {
    Source,
    Body,
    ClassBody,
    VariableStatement,
    FunctionDefinition,
    ConstructorDefinition,
    ClassDefinition,
    EnumDefinition,
    EnumeratorList,
    Enumerator,
    Comment,
    Setget,
    SetBody,
    GetBody,
    Setter,
    Getter,
    Parameters,
    DefaultParameter,
    ParenthesizedExpression,
    Annotations,
    Annotation,
    UnaryOperator,
    BinaryOperator,
    Integer,
    Float,
    StringLiteral,
    Array,
    Dictionary,
    Pair,
    ConditionalExpression,
    AwaitExpression,
    Lambda,
    LeftParen,
    RightParen,
    LeftBracket,
    RightBracket,
    LeftBrace,
    RightBrace,
    Comma,
    Colon,
    Equals,
    AndAnd,
    OrOr,
    Bang,
    NotKeyword,
    Plus,
    Minus,
    Star,
    Slash,
    StarStar,
    Percent,
    Pipe,
    Ampersand,
    Caret,
    ShiftLeft,
    ShiftRight,
    Less,
    LessEqual,
    EqualEqual,
    NotEqual,
    GreaterEqual,
    Greater,
    InKeyword,
    IsKeyword,
    AsKeyword,
    AndKeyword,
    OrKeyword,
    EnumKeyword,
    SetKeyword,
    GetKeyword,
    Other,
}

/// A node of the syntax tree: its kind, the characters `start..end` of the
/// source it spans, and its children in source order.
#[derive(Debug)]
pub struct SyntaxNode {
    pub kind: NodeKind,
    pub start: usize,
    pub end: usize,
    pub children: Vec<SyntaxNode>,
}

/// What a rule needs to know of the sibling just before a node.
#[derive(PartialEq, Eq, Structural, Clone, Copy, Debug)]
pub struct Sibling {
    pub kind: NodeKind,
    pub end: usize,
}

/// The ranges of `n` and of all its descendants lie within a source of `len`
/// characters, and siblings do not overlap and come in source order.
pub open spec fn well_formed(n: SyntaxNode, len: nat) -> bool
    decreases n,
{
    &&& n.start <= n.end <= len
    &&& forall|i: int| 0 <= i < n.children.len() - 1 ==> #[trigger] n.children[i].end <= n.children[i + 1].start
    &&& forall|i: int| 0 <= i < n.children.len() ==> well_formed(#[trigger] n.children[i], len)
}

/// The tree rooted at `n` is at most `d` levels deep.
pub open spec fn depth_within(n: SyntaxNode, d: nat) -> bool
    decreases n,
{
    &&& d > 0
    &&& forall|i: int| 0 <= i < n.children.len() ==> depth_within(#[trigger] n.children[i], (d - 1) as nat)
}

/// A tree within `d` levels is within any larger bound.
pub proof fn lemma_depth_within_grows(n: SyntaxNode, d: nat, e: nat)
    requires
        depth_within(n, d),
        d <= e,
    ensures
        depth_within(n, e),
    decreases n,
{
    assert forall|i: int| 0 <= i < n.children.len() implies depth_within(
        #[trigger] n.children[i],
        (e - 1) as nat,
    ) by {
        lemma_depth_within_grows(n.children[i], (d - 1) as nat, (e - 1) as nat);
    }
}

/// `a` and `b` have the same kinds, ranges and shape throughout.
pub open spec fn same_tree(a: SyntaxNode, b: SyntaxNode) -> bool
    decreases a,
{
    &&& a.kind == b.kind
    &&& a.start == b.start
    &&& a.end == b.end
    &&& a.children.len() == b.children.len()
    &&& forall|i: int| 0 <= i < a.children.len() ==> same_tree(#[trigger] a.children[i], b.children[i])
}

/// The sibling information of child `i` of `n`'s previous child.
pub open spec fn prev_sibling(n: SyntaxNode, i: int) -> Option<Sibling> {
    if i > 0 {
        Some(Sibling { kind: n.children[i - 1].kind, end: n.children[i - 1].end })
    } else {
        None
    }
}

/// The kind of the child before child `i` of `n`, if any.
pub open spec fn prev_kind(n: SyntaxNode, i: int) -> Option<NodeKind> {
    if i > 0 {
        Some(n.children[i - 1].kind)
    } else {
        None
    }
}

/// The kind of the child after child `i` of `n`, if any.
pub open spec fn next_kind(n: SyntaxNode, i: int) -> Option<NodeKind> {
    if i + 1 < n.children.len() {
        Some(n.children[i + 1].kind)
    } else {
        None
    }
}

/// The source characters that `n` spans.
pub open spec fn node_text(n: SyntaxNode, src: Seq<char>) -> Seq<char> {
    src.subrange(n.start as int, n.end as int)
}

/// The source characters that `node` spans.
pub fn get_node_text(node: &SyntaxNode, source: &Vec<char>) -> (r: Vec<char>)
    requires
        node.start <= node.end <= source.len(),
    ensures
        r@ == node_text(*node, source@),
{
    let mut r: Vec<char> = Vec::new();
    let mut i: usize = node.start;
    while i < node.end
        invariant
            node.start <= i <= node.end <= source.len(),
            r@ =~= source@.subrange(node.start as int, i as int),
        decreases node.end - i,
    {
        r.push(source[i]);
        i = i + 1;
        assert(r@ =~= source@.subrange(node.start as int, i as int));
    }
    r
}

} // verus!
