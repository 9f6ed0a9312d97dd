//! The entry point: parse, reject invalid input, format.
use vstd::prelude::*;
use tree_sitter::LanguageError;
use crate::parser::{
    build_node, char_starts, copies, gdscript_parse, lemma_copy_unique, lemma_copy_well_formed,
    parse_gdscript, raw_view,
};
use crate::rules::{apply, format_node, lemma_same_tree_formats_alike};
use crate::syntax::{depth_within, lemma_depth_within_grows, well_formed, NodeKind, SyntaxNode};
use crate::text::{chars_of, ends_with_single_newline, lemma_one_end_line, string_of};

verus! {

/// Why formatting failed.
#[derive(Debug)]
pub enum Error {
    /// The GDScript grammar could not be loaded into the parser.
    UnableToLoadLanguage(LanguageError),
    /// The parser produced no usable tree, or the source has syntax errors.
    UnableToParse(String),
}

/// The deepest syntax tree the formatter accepts.
pub const MAX_DEPTH: usize = 2048;

/// Formats a whole file from its syntax tree `tree` over the characters
/// `source`.
pub fn format_tree(tree: &SyntaxNode, source: &Vec<char>) -> (r: Vec<char>)
    requires
        well_formed(*tree, source@.len()),
        depth_within(*tree, MAX_DEPTH as nat),
    ensures
        r@ == format_node(*tree, source@, 0, NodeKind::Other, None),
{
    proof {
        lemma_depth_within_grows(*tree, MAX_DEPTH as nat, usize::MAX as nat);
    }
    apply(tree, source, 0, NodeKind::Other, None)
}

/// The text has a syntax tree and that tree holds a syntax error.
pub open spec fn has_syntax_error(text: Seq<char>) -> bool {
    gdscript_parse(text) matches Some(p) && p.0
}

/// `t` is the syntax tree of `text`: the copy, of kind `Source` and within
/// [`MAX_DEPTH`] levels, of the tree the grammar gives for `text`, when that
/// tree has no syntax error.
pub open spec fn is_parse_tree(text: Seq<char>, t: SyntaxNode) -> bool {
    &&& gdscript_parse(text) matches Some(p)
    &&& !p.0
    &&& t.kind == NodeKind::Source
    &&& copies(text, p.1, 0, MAX_DEPTH as nat, t)
}

/// Formatting depends on the text alone: any two syntax trees of a text
/// format to the same output.
pub proof fn lemma_parse_trees_format_alike(text: Seq<char>, t1: SyntaxNode, t2: SyntaxNode)
    requires
        is_parse_tree(text, t1),
        is_parse_tree(text, t2),
    ensures
        format_node(t1, text, 0, NodeKind::Other, None) == format_node(t2, text, 0, NodeKind::Other, None),
{
    let p = gdscript_parse(text)->Some_0;
    lemma_copy_unique(text, p.1, 0, MAX_DEPTH as nat, MAX_DEPTH as nat, t1, t2);
    lemma_same_tree_formats_alike(t1, t2, text, 0, NodeKind::Other, None);
}

/// A formatted file ends with exactly one newline, however many the source
/// had at its end.
pub proof fn lemma_formatted_file_ends_with_one_newline(tree: SyntaxNode, src: Seq<char>)
    requires
        tree.kind == NodeKind::Source,
    ensures
        ends_with_single_newline(format_node(tree, src, 0, NodeKind::Other, None)),
{
    let children = crate::rules::format_children(tree, src, 0, NodeKind::Other, tree.children.len() as int);
    lemma_one_end_line(children);
}

/// Formats GDScript source text: the formatting of its syntax tree. Text
/// with a syntax error is rejected, and so is text whose tree is deeper than
/// [`MAX_DEPTH`].
pub fn format_code(source: &str) -> (r: Result<String, Error>)
    ensures
        r matches Ok(s) ==> exists|t: SyntaxNode| #[trigger] is_parse_tree(source@, t)
            && s@ == format_node(t, source@, 0, NodeKind::Other, None),
        r matches Ok(s) ==> ends_with_single_newline(s@),
        has_syntax_error(source@) ==> (r matches Err(Error::UnableToLoadLanguage(_))) || (r matches Err(
            Error::UnableToParse(m),
        ) && m@ == "Source code contains syntax errors."@),
        (exists|t: SyntaxNode| is_parse_tree(source@, t)) ==> (r is Ok) || (r matches Err(
            Error::UnableToLoadLanguage(_),
        )),
        r matches Err(Error::UnableToParse(m)) ==> (m@ == "Source code contains syntax errors."@
            && has_syntax_error(source@)) || (m@
            == "Internal parser error: Failed to produce syntax tree."@ && gdscript_parse(
            source@,
        ) is None) || (m@ == "Source code nests too deeply, or its syntax tree cannot be read."@
            && gdscript_parse(source@) is Some && !has_syntax_error(source@) && !exists|t: SyntaxNode|
            is_parse_tree(source@, t)),
{
    let parsed = match parse_gdscript(source) {
        Ok(p) => p,
        Err(e) => return Err(Error::UnableToLoadLanguage(e)),
    };
    let (has_error, nodes) = match parsed {
        Some(x) => x,
        None => {
            return Err(
                Error::UnableToParse("Internal parser error: Failed to produce syntax tree.".to_owned()),
            )
        },
    };
    if has_error {
        return Err(Error::UnableToParse("Source code contains syntax errors.".to_owned()));
    }
    let chars = chars_of(source);
    let starts = char_starts(&chars);
    let tree = match build_node(&chars, &starts, &nodes, 0, MAX_DEPTH) {
        Some(x) => x.0,
        None => {
            return Err(
                Error::UnableToParse(
                    "Source code nests too deeply, or its syntax tree cannot be read.".to_owned(),
                ),
            )
        },
    };
    if tree.kind != NodeKind::Source {
        proof {
            assert forall|t: SyntaxNode| !is_parse_tree(source@, t) by {
                if is_parse_tree(source@, t) {
                    lemma_copy_unique(chars@, raw_view(nodes@), 0, MAX_DEPTH as nat, MAX_DEPTH as nat, t, tree);
                }
            }
        }
        return Err(
            Error::UnableToParse(
                "Source code nests too deeply, or its syntax tree cannot be read.".to_owned(),
            ),
        );
    }
    proof {
        lemma_copy_well_formed(chars@, raw_view(nodes@), 0, MAX_DEPTH as nat, tree);
        assert(is_parse_tree(source@, tree));
        lemma_formatted_file_ends_with_one_newline(tree, chars@);
    }
    let formatted = format_tree(&tree, &chars);
    Ok(string_of(&formatted))
}

} // verus!
