//! How many blank lines go before a node.
use vstd::prelude::*;
use crate::syntax::{NodeKind, Sibling};

verus! {

/// Kinds that stand apart by two blank lines at the top level of a file.
pub open spec fn is_declaration(k: NodeKind) -> bool {
    k == NodeKind::FunctionDefinition || k == NodeKind::ClassDefinition
        || k == NodeKind::ConstructorDefinition
}

/// The number of newline characters in `s`.
pub open spec fn newline_count(s: Seq<char>) -> nat
    decreases s.len(),
{
    if s.len() == 0 {
        0
    } else {
        newline_count(s.drop_last()) + if s.last() == '\n' { 1nat } else { 0nat }
    }
}

/// The blank lines the source had between two siblings, at most one: one
/// newline to emit when the gap holds two newlines or more, none otherwise.
pub open spec fn kept_gap(gap: Seq<char>) -> Seq<char> {
    if newline_count(gap) >= 2 {
        seq!['\n']
    } else {
        Seq::empty()
    }
}

/// A top-level declaration whose previous sibling is not a comment is
/// always preceded by two blank lines.
pub open spec fn forced_separation(kind: NodeKind, parent: NodeKind, prev: Option<Sibling>) -> bool {
    &&& is_declaration(kind)
    &&& parent == NodeKind::Source
    &&& prev matches Some(p) && p.kind != NodeKind::Comment
}

/// The newlines to emit before a node of kind `kind` that starts at
/// character `start`, whose parent is of kind `parent` and whose previous
/// sibling is `prev`.
pub open spec fn gap_lines(
    kind: NodeKind,
    start: nat,
    parent: NodeKind,
    prev: Option<Sibling>,
    src: Seq<char>,
) -> Seq<char> {
    match prev {
        None => Seq::empty(),
        Some(p) => if forced_separation(kind, parent, prev) {
            seq!['\n', '\n']
        } else {
            kept_gap(src.subrange(p.end as int, start as int))
        },
    }
}

/// Counts the newline characters of `source` in `from..to`, stopping at two.
fn count_newlines_upto_two(source: &Vec<char>, from: usize, to: usize) -> (r: usize)
    requires
        from <= to <= source.len(),
    ensures
        r == if newline_count(source@.subrange(from as int, to as int)) >= 2 {
            2
        } else {
            newline_count(source@.subrange(from as int, to as int))
        },
{
    let mut count: usize = 0;
    let mut i: usize = from;
    while i < to
        invariant
            from <= i <= to <= source.len(),
            count == newline_count(source@.subrange(from as int, i as int)),
            count < 2,
        decreases to - i,
    {
        assert(source@.subrange(from as int, i + 1).drop_last() =~= source@.subrange(from as int, i as int));
        if source[i] == '\n' {
            count = count + 1;
            if count == 2 {
                proof {
                    lemma_newline_count_grows(source@.subrange(from as int, to as int), (i + 1 - from) as nat);
                    assert(source@.subrange(from as int, to as int).subrange(0, (i + 1 - from) as int)
                        =~= source@.subrange(from as int, i + 1));
                }
                return 2;
            }
        }
        i = i + 1;
    }
    count
}

proof fn lemma_newline_count_grows(s: Seq<char>, k: nat)
    requires
        k <= s.len(),
    ensures
        newline_count(s.subrange(0, k as int)) <= newline_count(s),
    decreases s.len(),
{
    if k < s.len() {
        assert(s.drop_last().subrange(0, k as int) =~= s.subrange(0, k as int));
        lemma_newline_count_grows(s.drop_last(), k);
    } else {
        assert(s.subrange(0, k as int) =~= s);
    }
}

/// The newlines to emit before a node of kind `kind` starting at `start`,
/// given its parent's kind and its previous sibling.
pub fn get_gap_lines(
    kind: NodeKind,
    start: usize,
    parent: NodeKind,
    prev: Option<Sibling>,
    source: &Vec<char>,
) -> (r: Vec<char>)
    requires
        start <= source.len(),
        prev matches Some(p) ==> p.end <= start,
    ensures
        r@ == gap_lines(kind, start as nat, parent, prev, source@),
{
    let mut r: Vec<char> = Vec::new();
    match prev {
        None => {},
        Some(p) => {
            let declaration = kind == NodeKind::FunctionDefinition || kind == NodeKind::ClassDefinition
                || kind == NodeKind::ConstructorDefinition;
            if declaration && parent == NodeKind::Source && p.kind != NodeKind::Comment {
                r.push('\n');
                r.push('\n');
            } else if count_newlines_upto_two(source, p.end, start) >= 2 {
                r.push('\n');
            }
        },
    }
    assert(r@ =~= gap_lines(kind, start as nat, parent, prev, source@));
    r
}

/// Blank lines collapse: between siblings whose source gap holds two
/// newlines or more, exactly one blank line is kept, however many there were,
/// unless the node is a separated top-level declaration.
pub proof fn lemma_blank_lines_collapse(
    kind: NodeKind,
    start: nat,
    parent: NodeKind,
    p: Sibling,
    src: Seq<char>,
)
    requires
        newline_count(src.subrange(p.end as int, start as int)) >= 2,
        !forced_separation(kind, parent, Some(p)),
    ensures
        gap_lines(kind, start, parent, Some(p), src) == seq!['\n'],
{
}

/// Forced separation: a function, class or constructor definition at the top
/// level whose previous sibling is not a comment gets two blank lines,
/// whatever the source held between them.
pub proof fn lemma_forced_top_level_separation(
    kind: NodeKind,
    start: nat,
    p: Sibling,
    src: Seq<char>,
)
    requires
        is_declaration(kind),
        p.kind != NodeKind::Comment,
    ensures
        gap_lines(kind, start, NodeKind::Source, Some(p), src) == seq!['\n', '\n'],
{
}

/// A comment just before a top-level declaration keeps the source's spacing
/// between them: one blank line if the source had any, none otherwise.
pub proof fn lemma_comment_keeps_spacing(kind: NodeKind, start: nat, p: Sibling, src: Seq<char>)
    requires
        p.kind == NodeKind::Comment,
    ensures
        gap_lines(kind, start, NodeKind::Source, Some(p), src) == kept_gap(
            src.subrange(p.end as int, start as int),
        ),
{
}

} // verus!
