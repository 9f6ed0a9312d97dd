use gdfmt::{format_code, Error};

fn format(s: &str) -> String {
    format_code(s).unwrap()
}

#[test]
fn returns_error_on_syntax_errors() {
    let result = format_code(".");
    assert!(matches!(result, Err(Error::UnableToParse(_))));
}

#[test]
fn end_to_end_function_header() {
    assert_eq!(format("func     a  (   b    ,    c)    :    pass"), "func a(b, c):\n\tpass\n");
}

#[test]
fn end_to_end_float() {
    assert_eq!(format("var a = .234"), "var a = 0.234\n");
}

#[test]
fn end_to_end_boolean_operators() {
    assert_eq!(format("var a = foo&&bar||!baz"), "var a = foo and bar or not baz\n");
}

#[test]
fn formatting_twice_changes_nothing() {
    let inputs = [
        "func     a  (   b    ,    c)    :    pass",
        "var a = foo&&bar||!baz",
        "var e = 1234567890\nvar g = 0x1a3f6d",
        "# a comment\n\nclass A:\n\tpass\nclass B:\n\tpass",
        "var h = 'hello\\\"\\'\\\"\\' \\'\\\"\\'\\\"world'",
        "enum C{F = 0}\nvar d={1:1,2:2,}",
        "var d:\n\tset(value):\n\t\td = value\n\tget:\n\t\treturn 42",
    ];
    for input in inputs {
        let once = format(input);
        assert_eq!(format(&once), once);
    }
}

#[test]
fn blank_lines_collapse_to_one() {
    assert_eq!(format("var a = 0\n\n\n\n\nvar b = 0"), "var a = 0\n\nvar b = 0\n");
}

#[test]
fn single_newline_keeps_no_blank_line() {
    assert_eq!(format("var a = 0\nvar b = 0"), "var a = 0\nvar b = 0\n");
}

#[test]
fn top_level_functions_get_two_blank_lines() {
    let expected = "func a():\n\tpass\n\n\nfunc b():\n\tpass\n";
    assert_eq!(format("func a():\n\tpass\nfunc b():\n\tpass"), expected);
    assert_eq!(format("func a():\n\tpass\n\n\n\n\nfunc b():\n\tpass"), expected);
}

#[test]
fn comment_before_declaration_keeps_spacing() {
    assert_eq!(format("# doc\nfunc a():\n\tpass"), "# doc\nfunc a():\n\tpass\n");
    assert_eq!(format("# doc\n\n\n\nfunc a():\n\tpass"), "# doc\n\nfunc a():\n\tpass\n");
}

#[test]
fn trailing_newlines_collapse() {
    assert_eq!(format("var a = 0"), "var a = 0\n");
    assert_eq!(format("var a = 0\n"), "var a = 0\n");
    assert_eq!(format("var a = 0\n\n\n\n"), "var a = 0\n");
}

#[test]
fn empty_source_is_one_newline() {
    assert_eq!(format(""), "\n");
}

#[test]
fn parentheses_kept_for_precedence() {
    assert_eq!(format("var a = (1+2)*3"), "var a = (1 + 2) * 3\n");
}

#[test]
fn class_body_is_indented() {
    assert_eq!(
        format("class A:\n\tclass B:\n\t\tvar x=1"),
        "class A:\n\tclass B:\n\t\tvar x = 1\n"
    );
}

#[test]
fn non_ascii_text_keeps_its_place() {
    assert_eq!(format("var s = 'héllo ✓'\n# ünïcode\nvar t=1"), "var s = \"héllo ✓\"\n# ünïcode\nvar t = 1\n");
}

#[test]
fn parentheses_dropped_around_plain_operand() {
    assert_eq!(format("var a = (x)+1"), "var a = x + 1\n");
    assert_eq!(format("var b = !(ready)"), "var b = not ready\n");
}

#[test]
fn parentheses_kept_around_inner_operator() {
    assert_eq!(format("var c = -(a+b)"), "var c = -(a + b)\n");
}

#[test]
fn formatting_is_deterministic() {
    let input = "class A:\n\tvar x = {1:2}\nfunc f(a=1):\n\treturn a";
    assert_eq!(format_code(input).unwrap(), format_code(input).unwrap());
}

#[test]
fn too_deep_nesting_is_rejected() {
    let source = format!("var a = {}1{}", "(".repeat(3000), ")".repeat(3000));
    match format_code(&source) {
        Err(Error::UnableToParse(m)) => {
            assert_eq!(m, "Source code nests too deeply, or its syntax tree cannot be read.")
        }
        other => panic!("unexpected result: {:?}", other.map(|s| s.len())),
    }
}

#[test]
fn nested_parentheses_keep_one_pair_for_precedence() {
    assert_eq!(format("var a = ((a+b))*c"), "var a = (a + b) * c\n");
    assert_eq!(format("var b = ((x))"), "var b = x\n");
}

#[test]
fn parentheses_kept_around_await_operand() {
    assert_eq!(format("func f():\n\tvar a = (await g()) + 1"), "func f():\n\tvar a = (await g()) + 1\n");
}


#[test]
fn parentheses_dropped_where_precedence_allows() {
    assert_eq!(format("var a = (x*y)+z"), "var a = x * y + z\n");
    assert_eq!(format("var b = (x-y)-z"), "var b = x - y - z\n");
    assert_eq!(format("var c = (not x) and y"), "var c = not x and y\n");
}

#[test]
fn parentheses_kept_where_precedence_needs_them() {
    assert_eq!(format("var a = x-(y-z)"), "var a = x - (y - z)\n");
    assert_eq!(format("var b = not (x or y)"), "var b = not (x or y)\n");
    assert_eq!(format("var c = (x or y) and z"), "var c = (x or y) and z\n");
}
