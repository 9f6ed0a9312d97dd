//! Parsing with the GDScript grammar, and the copy of the parser's tree into
//! a [`SyntaxNode`] tree.
use vstd::prelude::*;
use tree_sitter::{LanguageError, Parser};
use crate::syntax::{depth_within, same_tree, well_formed, NodeKind, SyntaxNode};
use crate::text::chars_of;

verus! {

/// The error tree-sitter reports when a grammar cannot be loaded.
#[verifier::external_type_specification]
#[verifier::external_body]
pub struct ExLanguageError(tree_sitter::LanguageError);

/// What the GDScript grammar makes of a text: `None` when the parser gives
/// no tree; otherwise whether the tree holds a syntax error, and its nodes in
/// preorder, each as its kind's name, its start and end byte, and its number
/// of children.
pub uninterp spec fn gdscript_parse(text: Seq<char>) -> Option<(bool, Seq<(Seq<char>, nat, nat, nat)>)>;

/// The plain values of a list of parsed nodes.
pub open spec fn raw_view(v: Seq<(String, usize, usize, u32)>) -> Seq<(Seq<char>, nat, nat, nat)> {
    v.map_values(|e: (String, usize, usize, u32)| (e.0@, e.1 as nat, e.2 as nat, e.3 as nat))
}

/// The plain values of a parse result.
pub open spec fn parsed_view(p: Option<(bool, Vec<(String, usize, usize, u32)>)>) -> Option<
    (bool, Seq<(Seq<char>, nat, nat, nat)>),
> {
    match p {
        Some(x) => Some((x.0, raw_view(x.1@))),
        None => None,
    }
}

/// Relies on tree-sitter: `Parser::new`, `Parser::set_language` with
/// `tree_sitter_gdscript::LANGUAGE` (which fails when this version of the
/// parser cannot use the grammar), `Parser::parse`, and a preorder walk of
/// the tree with a `TreeCursor` reading `Node::kind`, `start_byte`,
/// `end_byte`, `child_count`, and the root's `has_error`. Under the fixed
/// grammar the outcome depends on the text alone.
#[verifier::external_body]
pub(crate) fn parse_gdscript(text: &str) -> (r: Result<Option<(bool, Vec<(String, usize, usize, u32)>)>, LanguageError>)
    ensures
        r matches Ok(p) ==> parsed_view(p) == gdscript_parse(text@),
{
    let mut parser = Parser::new();
    parser.set_language(&tree_sitter_gdscript::LANGUAGE.into())?;
    let Some(tree) = parser.parse(text, None) else { return Ok(None) };
    let (mut cursor, mut nodes) = (tree.walk(), Vec::new());
    loop {
        let n = cursor.node();
        nodes.push((n.kind().to_string(), n.start_byte(), n.end_byte(), n.child_count()));
        if cursor.goto_first_child() { continue; }
        while !cursor.goto_next_sibling() {
            if !cursor.goto_parent() {
                return Ok(Some((tree.root_node().has_error(), nodes)));
            }
        }
    }
}

/// The number of bytes of the UTF-8 encoding of `c`.
pub open spec fn utf8_width(c: char) -> nat {
    let u = c as u32;
    if u < 0x80 {
        1
    } else if u < 0x800 {
        2
    } else if u < 0x1_0000 {
        3
    } else {
        4
    }
}

fn utf8_width_of(c: char) -> (r: usize)
    ensures
        r as nat == utf8_width(c),
        1 <= r <= 4,
{
    let u = c as u32;
    if u < 0x80 {
        1
    } else if u < 0x800 {
        2
    } else if u < 0x1_0000 {
        3
    } else {
        4
    }
}

/// The byte offset of character `i` of `text` in its UTF-8 encoding.
pub open spec fn byte_offset(text: Seq<char>, i: int) -> nat
    decreases i,
{
    if i <= 0 {
        0
    } else {
        byte_offset(text, i - 1) + utf8_width(text[i - 1])
    }
}

proof fn lemma_byte_offset_grows(text: Seq<char>, i: int, j: int)
    requires
        0 <= i < j,
    ensures
        byte_offset(text, i) < byte_offset(text, j),
    decreases j,
{
    if i < j - 1 {
        lemma_byte_offset_grows(text, i, j - 1);
    }
}

/// `starts` maps each byte offset of the encoding of `text` at which a
/// character starts (and the offset of its end) to that character's index,
/// and every other offset to `None`.
pub open spec fn maps_char_starts(text: Seq<char>, starts: Seq<Option<usize>>) -> bool {
    &&& forall|b: int| 0 <= b < starts.len() ==> (#[trigger] starts[b] matches Some(i) ==> i
        <= text.len() && byte_offset(text, i as int) == b)
    &&& forall|i: int| 0 <= i <= text.len() ==> #[trigger] byte_offset(text, i) < starts.len()
        && starts[byte_offset(text, i) as int] == Some(i as usize)
}

/// For each byte offset of the UTF-8 encoding of `chars` (and the offset
/// just past its end), the index of the character that starts there, or
/// `None` inside a character.
pub fn char_starts(chars: &Vec<char>) -> (r: Vec<Option<usize>>)
    ensures
        maps_char_starts(chars@, r@),
        r.len() == byte_offset(chars@, chars.len() as int) + 1,
{
    let mut r: Vec<Option<usize>> = Vec::new();
    let mut i: usize = 0;
    while i < chars.len()
        invariant
            i <= chars.len(),
            r.len() == byte_offset(chars@, i as int),
            forall|b: int| 0 <= b < r.len() ==> (#[trigger] r[b] matches Some(k) ==> k < i
                && byte_offset(chars@, k as int) == b),
            forall|k: int| 0 <= k < i ==> #[trigger] byte_offset(chars@, k) < r.len()
                && r[byte_offset(chars@, k) as int] == Some(k as usize),
        decreases chars.len() - i,
    {
        let w = utf8_width_of(chars[i]);
        let ghost before = r@;
        r.push(Some(i));
        let mut j: usize = 1;
        while j < w
            invariant
                1 <= j <= w <= 4,
                i < chars.len(),
                r.len() == before.len() + j,
                r@.subrange(0, before.len() as int + 1) == before.push(Some(i)),
                forall|b: int| before.len() < b < r.len() ==> #[trigger] r[b] == None::<usize>,
            decreases w - j,
        {
            r.push(None);
            j = j + 1;
            assert(r@.subrange(0, before.len() as int + 1) =~= before.push(Some(i)));
        }
        proof {
            assert forall|b: int| 0 <= b < r.len() implies (#[trigger] r[b] matches Some(k) ==> k < i + 1
                && byte_offset(chars@, k as int) == b) by {
                if b < before.len() {
                    assert(r@.subrange(0, before.len() as int + 1)[b] == r[b]);
                } else if b == before.len() {
                    assert(r@.subrange(0, before.len() as int + 1)[b] == r[b]);
                }
            }
            assert forall|k: int| 0 <= k < i + 1 implies #[trigger] byte_offset(chars@, k) < r.len()
                && r[byte_offset(chars@, k) as int] == Some(k as usize) by {
                assert(r@.subrange(0, before.len() as int + 1)[byte_offset(chars@, k) as int] == r[byte_offset(chars@, k) as int]);
            }
        }
        i = i + 1;
    }
    r.push(Some(chars.len()));
    r
}

/// The character index at byte offset `b`, if a character starts there.
fn char_at_byte(starts: &Vec<Option<usize>>, b: usize) -> (r: Option<usize>)
    ensures
        r == if b < starts.len() { starts[b as int] } else { None },
{
    if b < starts.len() {
        starts[b]
    } else {
        None
    }
}

/// The number of nodes of the tree rooted at `t`.
pub open spec fn subtree_size(t: SyntaxNode) -> nat
    decreases t, t.children.len() + 1,
{
    1 + children_size(t, t.children.len() as int)
}

/// The number of nodes in the subtrees of the first `i` children of `t`.
pub open spec fn children_size(t: SyntaxNode, i: int) -> nat
    decreases t, i,
{
    if i <= 0 || i > t.children.len() {
        0
    } else {
        children_size(t, i - 1) + subtree_size(t.children[i - 1])
    }
}

/// The number of nodes in the trees `s[0..i]`.
pub open spec fn sizes_sum(s: Seq<SyntaxNode>, i: int) -> nat
    decreases i,
{
    if i <= 0 {
        0
    } else {
        sizes_sum(s, i - 1) + subtree_size(s[i - 1])
    }
}

/// `t`, of at most `d` levels, is the copy of the subtree whose root is the
/// preorder entry `p` of `nodes`, over the characters of `text`.
pub open spec fn copies(
    text: Seq<char>,
    nodes: Seq<(Seq<char>, nat, nat, nat)>,
    p: int,
    d: nat,
    t: SyntaxNode,
) -> bool
    decreases t,
{
    &&& 0 <= p < nodes.len()
    &&& d > 0
    &&& t.kind == kind_named(nodes[p].0)
    &&& t.start <= t.end <= text.len()
    &&& byte_offset(text, t.start as int) == nodes[p].1
    &&& byte_offset(text, t.end as int) == nodes[p].2
    &&& t.children.len() == nodes[p].3
    &&& forall|i: int| 0 <= i < t.children.len() - 1 ==> #[trigger] t.children[i].end
        <= t.children[i + 1].start
    &&& forall|i: int| 0 <= i < t.children.len() ==> copies(
        text,
        nodes,
        p + 1 + children_size(t, i),
        (d - 1) as nat,
        #[trigger] t.children[i],
    )
}

/// A copy is a well-formed tree within its depth bound.
pub proof fn lemma_copy_well_formed(
    text: Seq<char>,
    nodes: Seq<(Seq<char>, nat, nat, nat)>,
    p: int,
    d: nat,
    t: SyntaxNode,
)
    requires
        copies(text, nodes, p, d, t),
    ensures
        well_formed(t, text.len()),
        depth_within(t, d),
    decreases t,
{
    assert forall|i: int| 0 <= i < t.children.len() implies well_formed(#[trigger] t.children[i], text.len())
        && depth_within(t.children[i], (d - 1) as nat) by {
        lemma_copy_well_formed(text, nodes, p + 1 + children_size(t, i), (d - 1) as nat, t.children[i]);
    }
}

/// The copy of a preorder entry is unique, up to the identity of its vectors.
pub proof fn lemma_copy_unique(
    text: Seq<char>,
    nodes: Seq<(Seq<char>, nat, nat, nat)>,
    p: int,
    d1: nat,
    d2: nat,
    t1: SyntaxNode,
    t2: SyntaxNode,
)
    requires
        copies(text, nodes, p, d1, t1),
        copies(text, nodes, p, d2, t2),
    ensures
        same_tree(t1, t2),
        subtree_size(t1) == subtree_size(t2),
    decreases t1, t1.children.len() + 1,
{
    if t1.start < t2.start {
        lemma_byte_offset_grows(text, t1.start as int, t2.start as int);
    }
    if t2.start < t1.start {
        lemma_byte_offset_grows(text, t2.start as int, t1.start as int);
    }
    if t1.end < t2.end {
        lemma_byte_offset_grows(text, t1.end as int, t2.end as int);
    }
    if t2.end < t1.end {
        lemma_byte_offset_grows(text, t2.end as int, t1.end as int);
    }
    lemma_children_unique(text, nodes, p, d1, d2, t1, t2, t1.children.len() as int);
}

proof fn lemma_children_unique(
    text: Seq<char>,
    nodes: Seq<(Seq<char>, nat, nat, nat)>,
    p: int,
    d1: nat,
    d2: nat,
    t1: SyntaxNode,
    t2: SyntaxNode,
    i: int,
)
    requires
        copies(text, nodes, p, d1, t1),
        copies(text, nodes, p, d2, t2),
        0 <= i <= t1.children.len(),
    ensures
        children_size(t1, i) == children_size(t2, i),
        forall|j: int| 0 <= j < i ==> same_tree(#[trigger] t1.children[j], t2.children[j]),
    decreases t1, i,
{
    if i > 0 {
        lemma_children_unique(text, nodes, p, d1, d2, t1, t2, i - 1);
        lemma_copy_unique(
            text,
            nodes,
            p + 1 + children_size(t1, i - 1),
            (d1 - 1) as nat,
            (d2 - 1) as nat,
            t1.children[i - 1],
            t2.children[i - 1],
        );
    }
}

proof fn lemma_sizes_sum_prefix(s: Seq<SyntaxNode>, x: SyntaxNode, j: int)
    requires
        0 <= j <= s.len(),
    ensures
        sizes_sum(s.push(x), j) == sizes_sum(s, j),
    decreases j,
{
    if j > 0 {
        lemma_sizes_sum_prefix(s, x, j - 1);
    }
}

proof fn lemma_children_size_is_sum(t: SyntaxNode, i: int)
    requires
        0 <= i <= t.children.len(),
    ensures
        children_size(t, i) == sizes_sum(t.children@, i),
    decreases i,
{
    if i > 0 {
        lemma_children_size_is_sum(t, i - 1);
    }
}

/// Copies the preorder entry `p` of `nodes`, and its descendants, into a
/// tree of at most `d` levels; also gives the entry just after the copied
/// subtree. `None` exactly when no such copy exists.
pub fn build_node(
    text: &Vec<char>,
    starts: &Vec<Option<usize>>,
    nodes: &Vec<(String, usize, usize, u32)>,
    p: usize,
    d: usize,
) -> (r: Option<(SyntaxNode, usize)>)
    requires
        maps_char_starts(text@, starts@),
    ensures
        r matches Some(x) ==> copies(text@, raw_view(nodes@), p as int, d as nat, x.0) && x.1 == p
            + subtree_size(x.0),
        r is None ==> forall|t: SyntaxNode| !copies(text@, raw_view(nodes@), p as int, d as nat, t),
    decreases d,
{
    let ghost nv = raw_view(nodes@);
    if d == 0 || p >= nodes.len() {
        return None;
    }
    let start = match char_at_byte(starts, nodes[p].1) {
        Some(i) => i,
        None => {
            proof {
                assert forall|t: SyntaxNode| !copies(text@, nv, p as int, d as nat, t) by {
                    if copies(text@, nv, p as int, d as nat, t) {
                        assert(byte_offset(text@, t.start as int) < starts.len());
                    }
                }
            }
            return None;
        },
    };
    let end = match char_at_byte(starts, nodes[p].2) {
        Some(i) => i,
        None => {
            proof {
                assert forall|t: SyntaxNode| !copies(text@, nv, p as int, d as nat, t) by {
                    if copies(text@, nv, p as int, d as nat, t) {
                        assert(byte_offset(text@, t.end as int) < starts.len());
                    }
                }
            }
            return None;
        },
    };
    proof {
        assert(starts@[nodes[p as int].1 as int] == Some(start));
        assert(starts@[nodes[p as int].2 as int] == Some(end));
    }
    if start > end {
        proof {
            assert forall|t: SyntaxNode| !copies(text@, nv, p as int, d as nat, t) by {
                if copies(text@, nv, p as int, d as nat, t) {
                    assert(byte_offset(text@, t.start as int) < starts.len());
                    assert(byte_offset(text@, t.end as int) < starts.len());
                }
            }
        }
        return None;
    }
    let kind = kind_from_name(nodes[p].0.as_str());
    let count = nodes[p].3;
    let mut children: Vec<SyntaxNode> = Vec::new();
    let mut q: usize = p + 1;
    let mut k: u32 = 0;
    while k < count
        invariant
            maps_char_starts(text@, starts@),
            nv == raw_view(nodes@),
            p < nodes.len(),
            d > 0,
            count as nat == nv[p as int].3,
            k <= count,
            children.len() == k,
            q == p + 1 + sizes_sum(children@, k as int),
            forall|j: int| 0 <= j < k ==> copies(text@, nv, p + 1 + sizes_sum(children@, j), (d - 1) as nat, #[trigger] children@[j]),
            forall|j: int| 0 <= j < k - 1 ==> #[trigger] children@[j].end <= children@[j + 1].start,
            forall|t: SyntaxNode| #[trigger] copies(text@, nv, p as int, d as nat, t) ==> children_size(t, k as int)
                == sizes_sum(children@, k as int) && forall|j: int| 0 <= j < k ==> same_tree(#[trigger] t.children[j], children@[j]),
        decreases count - k,
    {
        let (child, next) = match build_node(text, starts, nodes, q, d - 1) {
            Some(x) => x,
            None => {
                proof {
                    assert forall|t: SyntaxNode| !copies(text@, nv, p as int, d as nat, t) by {
                        if copies(text@, nv, p as int, d as nat, t) {
                            assert(copies(text@, nv, p + 1 + children_size(t, k as int), (d - 1) as nat, t.children[k as int]));
                        }
                    }
                }
                return None;
            },
        };
        if k > 0 && children[(k - 1) as usize].end > child.start {
            proof {
                assert forall|t: SyntaxNode| !copies(text@, nv, p as int, d as nat, t) by {
                    if copies(text@, nv, p as int, d as nat, t) {
                        assert(copies(text@, nv, p + 1 + children_size(t, k as int), (d - 1) as nat, t.children[k as int]));
                        lemma_copy_unique(text@, nv, q as int, (d - 1) as nat, (d - 1) as nat, t.children[k as int], child);
                        assert(same_tree(t.children[k - 1], children@[k - 1]));
                        assert(t.children[k - 1].end <= t.children[(k - 1) + 1].start);
                    }
                }
            }
            return None;
        }
        let ghost before = children@;
        children.push(child);
        proof {
            assert(children@ == before.push(child));
            lemma_sizes_sum_prefix(before, child, k as int);
            assert forall|j: int| 0 <= j <= k implies sizes_sum(children@, j) == sizes_sum(before, j) by {
                lemma_sizes_sum_prefix(before, child, j);
            }
            assert(sizes_sum(children@, k + 1) == sizes_sum(before, k as int) + subtree_size(child));
            assert forall|j: int| 0 <= j < k + 1 implies copies(text@, nv, p + 1 + sizes_sum(children@, j), (d - 1) as nat, #[trigger] children@[j]) by {
                if j < k {
                    assert(children@[j] == before[j]);
                }
            }
            assert forall|j: int| 0 <= j < k + 1 - 1 implies #[trigger] children@[j].end <= children@[j + 1].start by {
                if j < k - 1 {
                    assert(children@[j] == before[j] && children@[j + 1] == before[j + 1]);
                }
            }
            assert forall|t: SyntaxNode| #[trigger] copies(text@, nv, p as int, d as nat, t) implies children_size(t, k + 1)
                == sizes_sum(children@, k + 1) && forall|j: int| 0 <= j < k + 1 ==> same_tree(#[trigger] t.children[j], children@[j]) by {
                assert(copies(text@, nv, p + 1 + children_size(t, k as int), (d - 1) as nat, t.children[k as int]));
                lemma_copy_unique(text@, nv, q as int, (d - 1) as nat, (d - 1) as nat, t.children[k as int], child);
                assert forall|j: int| 0 <= j < k + 1 implies same_tree(#[trigger] t.children[j], children@[j]) by {
                    if j < k {
                        assert(children@[j] == before[j]);
                    }
                }
            }
        }
        q = next;
        k = k + 1;
    }
    let t = SyntaxNode { kind, start, end, children };
    proof {
        assert(t.children@ == children@);
        assert forall|j: int| 0 <= j <= t.children.len() implies children_size(t, j) == sizes_sum(children@, j) by {
            lemma_children_size_is_sum(t, j);
        }
        assert forall|i: int| 0 <= i < t.children.len() implies copies(
            text@,
            nv,
            p + 1 + children_size(t, i),
            (d - 1) as nat,
            #[trigger] t.children[i],
        ) by {
            assert(t.children[i] == children@[i]);
        }
        assert forall|i: int| 0 <= i < t.children.len() - 1 implies #[trigger] t.children[i].end
            <= t.children[i + 1].start by {
            assert(t.children[i] == children@[i] && t.children[i + 1] == children@[i + 1]);
        }
    }
    Some((t, q))
}

fn same_chars(v: &Vec<char>, w: &Vec<char>) -> (r: bool)
    ensures
        r == (v@ == w@),
{
    if v.len() != w.len() {
        return false;
    }
    let mut i: usize = 0;
    while i < v.len()
        invariant
            i <= v.len() == w.len(),
            forall|j: int| 0 <= j < i ==> v@[j] == w@[j],
        decreases v.len() - i,
    {
        if v[i] != w[i] {
            return false;
        }
        i = i + 1;
    }
    assert(v@ =~= w@);
    true
}

fn is_named(name: &Vec<char>, lit: &str) -> (r: bool)
    ensures
        r == (name@ == lit@),
{
    same_chars(name, &chars_of(lit))
}

/// The node kind the grammar calls `name`.
pub open spec fn kind_named(name: Seq<char>) -> NodeKind {
    if name == "source"@ { NodeKind::Source }
    else if name == "body"@ { NodeKind::Body }
    else if name == "class_body"@ { NodeKind::ClassBody }
    else if name == "variable_statement"@ { NodeKind::VariableStatement }
    else if name == "function_definition"@ { NodeKind::FunctionDefinition }
    else if name == "constructor_definition"@ { NodeKind::ConstructorDefinition }
    else if name == "class_definition"@ { NodeKind::ClassDefinition }
    else if name == "enum_definition"@ { NodeKind::EnumDefinition }
    else if name == "enumerator_list"@ { NodeKind::EnumeratorList }
    else if name == "enumerator"@ { NodeKind::Enumerator }
    else if name == "comment"@ { NodeKind::Comment }
    else if name == "setget"@ { NodeKind::Setget }
    else if name == "set_body"@ { NodeKind::SetBody }
    else if name == "get_body"@ { NodeKind::GetBody }
    else if name == "setter"@ { NodeKind::Setter }
    else if name == "getter"@ { NodeKind::Getter }
    else if name == "parameters"@ { NodeKind::Parameters }
    else if name == "default_parameter"@ { NodeKind::DefaultParameter }
    else if name == "parenthesized_expression"@ { NodeKind::ParenthesizedExpression }
    else if name == "annotations"@ { NodeKind::Annotations }
    else if name == "annotation"@ { NodeKind::Annotation }
    else if name == "unary_operator"@ { NodeKind::UnaryOperator }
    else if name == "binary_operator"@ { NodeKind::BinaryOperator }
    else if name == "integer"@ { NodeKind::Integer }
    else if name == "float"@ { NodeKind::Float }
    else if name == "string"@ { NodeKind::StringLiteral }
    else if name == "array"@ { NodeKind::Array }
    else if name == "dictionary"@ { NodeKind::Dictionary }
    else if name == "pair"@ { NodeKind::Pair }
    else if name == "conditional_expression"@ { NodeKind::ConditionalExpression }
    else if name == "await_expression"@ { NodeKind::AwaitExpression }
    else if name == "lambda"@ { NodeKind::Lambda }
    else if name == "("@ { NodeKind::LeftParen }
    else if name == ")"@ { NodeKind::RightParen }
    else if name == "["@ { NodeKind::LeftBracket }
    else if name == "]"@ { NodeKind::RightBracket }
    else if name == "{"@ { NodeKind::LeftBrace }
    else if name == "}"@ { NodeKind::RightBrace }
    else if name == ","@ { NodeKind::Comma }
    else if name == ":"@ { NodeKind::Colon }
    else if name == "="@ { NodeKind::Equals }
    else if name == "&&"@ { NodeKind::AndAnd }
    else if name == "||"@ { NodeKind::OrOr }
    else if name == "!"@ { NodeKind::Bang }
    else if name == "not"@ { NodeKind::NotKeyword }
    else if name == "+"@ { NodeKind::Plus }
    else if name == "-"@ { NodeKind::Minus }
    else if name == "*"@ { NodeKind::Star }
    else if name == "/"@ { NodeKind::Slash }
    else if name == "**"@ { NodeKind::StarStar }
    else if name == "%"@ { NodeKind::Percent }
    else if name == "|"@ { NodeKind::Pipe }
    else if name == "&"@ { NodeKind::Ampersand }
    else if name == "^"@ { NodeKind::Caret }
    else if name == "<<"@ { NodeKind::ShiftLeft }
    else if name == ">>"@ { NodeKind::ShiftRight }
    else if name == "<"@ { NodeKind::Less }
    else if name == "<="@ { NodeKind::LessEqual }
    else if name == "=="@ { NodeKind::EqualEqual }
    else if name == "!="@ { NodeKind::NotEqual }
    else if name == ">="@ { NodeKind::GreaterEqual }
    else if name == ">"@ { NodeKind::Greater }
    else if name == "in"@ { NodeKind::InKeyword }
    else if name == "is"@ { NodeKind::IsKeyword }
    else if name == "as"@ { NodeKind::AsKeyword }
    else if name == "and"@ { NodeKind::AndKeyword }
    else if name == "or"@ { NodeKind::OrKeyword }
    else if name == "enum"@ { NodeKind::EnumKeyword }
    else if name == "set"@ { NodeKind::SetKeyword }
    else if name == "get"@ { NodeKind::GetKeyword }
    else { NodeKind::Other }
}

/// The node kind the grammar calls `name`.
pub fn kind_from_name(name: &str) -> (r: NodeKind)
    ensures
        r == kind_named(name@),
{
    let n = chars_of(name);
    if is_named(&n, "source") { NodeKind::Source }
    else if is_named(&n, "body") { NodeKind::Body }
    else if is_named(&n, "class_body") { NodeKind::ClassBody }
    else if is_named(&n, "variable_statement") { NodeKind::VariableStatement }
    else if is_named(&n, "function_definition") { NodeKind::FunctionDefinition }
    else if is_named(&n, "constructor_definition") { NodeKind::ConstructorDefinition }
    else if is_named(&n, "class_definition") { NodeKind::ClassDefinition }
    else if is_named(&n, "enum_definition") { NodeKind::EnumDefinition }
    else if is_named(&n, "enumerator_list") { NodeKind::EnumeratorList }
    else if is_named(&n, "enumerator") { NodeKind::Enumerator }
    else if is_named(&n, "comment") { NodeKind::Comment }
    else if is_named(&n, "setget") { NodeKind::Setget }
    else if is_named(&n, "set_body") { NodeKind::SetBody }
    else if is_named(&n, "get_body") { NodeKind::GetBody }
    else if is_named(&n, "setter") { NodeKind::Setter }
    else if is_named(&n, "getter") { NodeKind::Getter }
    else if is_named(&n, "parameters") { NodeKind::Parameters }
    else if is_named(&n, "default_parameter") { NodeKind::DefaultParameter }
    else if is_named(&n, "parenthesized_expression") { NodeKind::ParenthesizedExpression }
    else if is_named(&n, "annotations") { NodeKind::Annotations }
    else if is_named(&n, "annotation") { NodeKind::Annotation }
    else if is_named(&n, "unary_operator") { NodeKind::UnaryOperator }
    else if is_named(&n, "binary_operator") { NodeKind::BinaryOperator }
    else if is_named(&n, "integer") { NodeKind::Integer }
    else if is_named(&n, "float") { NodeKind::Float }
    else if is_named(&n, "string") { NodeKind::StringLiteral }
    else if is_named(&n, "array") { NodeKind::Array }
    else if is_named(&n, "dictionary") { NodeKind::Dictionary }
    else if is_named(&n, "pair") { NodeKind::Pair }
    else if is_named(&n, "conditional_expression") { NodeKind::ConditionalExpression }
    else if is_named(&n, "await_expression") { NodeKind::AwaitExpression }
    else if is_named(&n, "lambda") { NodeKind::Lambda }
    else if is_named(&n, "(") { NodeKind::LeftParen }
    else if is_named(&n, ")") { NodeKind::RightParen }
    else if is_named(&n, "[") { NodeKind::LeftBracket }
    else if is_named(&n, "]") { NodeKind::RightBracket }
    else if is_named(&n, "{") { NodeKind::LeftBrace }
    else if is_named(&n, "}") { NodeKind::RightBrace }
    else if is_named(&n, ",") { NodeKind::Comma }
    else if is_named(&n, ":") { NodeKind::Colon }
    else if is_named(&n, "=") { NodeKind::Equals }
    else if is_named(&n, "&&") { NodeKind::AndAnd }
    else if is_named(&n, "||") { NodeKind::OrOr }
    else if is_named(&n, "!") { NodeKind::Bang }
    else if is_named(&n, "not") { NodeKind::NotKeyword }
    else if is_named(&n, "+") { NodeKind::Plus }
    else if is_named(&n, "-") { NodeKind::Minus }
    else if is_named(&n, "*") { NodeKind::Star }
    else if is_named(&n, "/") { NodeKind::Slash }
    else if is_named(&n, "**") { NodeKind::StarStar }
    else if is_named(&n, "%") { NodeKind::Percent }
    else if is_named(&n, "|") { NodeKind::Pipe }
    else if is_named(&n, "&") { NodeKind::Ampersand }
    else if is_named(&n, "^") { NodeKind::Caret }
    else if is_named(&n, "<<") { NodeKind::ShiftLeft }
    else if is_named(&n, ">>") { NodeKind::ShiftRight }
    else if is_named(&n, "<") { NodeKind::Less }
    else if is_named(&n, "<=") { NodeKind::LessEqual }
    else if is_named(&n, "==") { NodeKind::EqualEqual }
    else if is_named(&n, "!=") { NodeKind::NotEqual }
    else if is_named(&n, ">=") { NodeKind::GreaterEqual }
    else if is_named(&n, ">") { NodeKind::Greater }
    else if is_named(&n, "in") { NodeKind::InKeyword }
    else if is_named(&n, "is") { NodeKind::IsKeyword }
    else if is_named(&n, "as") { NodeKind::AsKeyword }
    else if is_named(&n, "and") { NodeKind::AndKeyword }
    else if is_named(&n, "or") { NodeKind::OrKeyword }
    else if is_named(&n, "enum") { NodeKind::EnumKeyword }
    else if is_named(&n, "set") { NodeKind::SetKeyword }
    else if is_named(&n, "get") { NodeKind::GetKeyword }
    else { NodeKind::Other }
}

} // verus!
