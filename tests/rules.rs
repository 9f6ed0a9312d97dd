use gdfmt::format_code;

fn check(source_input: &str, expected_output: &str) {
    let formatted = format_code(source_input).unwrap();
    assert_eq!(formatted, expected_output);
}

#[test]
fn rules_keep_line_1() {
    let (source_input, expected_output) = ("# comment\n# comment", "# comment\n# comment\n");
    check(source_input, expected_output);
}

#[test]
fn rules_keep_line_2() {
    let (source_input, expected_output) = ("# comment\n\n# comment", "# comment\n\n# comment\n");
    check(source_input, expected_output);
}

#[test]
fn rules_keep_line_3() {
    let (source_input, expected_output) = ("# comment\n\n\n# comment", "# comment\n\n# comment\n");
    check(source_input, expected_output);
}

#[test]
fn rules_keep_line_4() {
    let (source_input, expected_output) = ("# comment\n  \n  \n# comment", "# comment\n\n# comment\n");
    check(source_input, expected_output);
}

#[test]
fn rules_keep_text_1() {
    let (source_input, expected_output) = ("print(42)", "print(42)\n");
    check(source_input, expected_output);
}

#[test]
fn rules_keep_text_2() {
    let (source_input, expected_output) = ("print( 42 )", "print( 42 )\n");
    check(source_input, expected_output);
}

#[test]
fn function_trim_whitespaces_1() {
    let (source_input, expected_output) = ("func     a  (   b    ,    c)    :    pass", "func a(b, c):\n\tpass\n");
    check(source_input, expected_output);
}

#[test]
fn function_trim_whitespaces_2() {
    let (source_input, expected_output) = ("func a( b = {} ,  c  =  42 ):pass", "func a(b={}, c=42):\n\tpass\n");
    check(source_input, expected_output);
}

#[test]
fn function_trim_whitespaces_3() {
    let (source_input, expected_output) = ("func a( b ,  c  =  42 ):pass", "func a(b, c=42):\n\tpass\n");
    check(source_input, expected_output);
}

#[test]
fn function_keep_two_lines_between_1() {
    let (source_input, expected_output) = ("func a():\n\tpass\nfunc b():\n\tpass", "func a():\n\tpass\n\n\nfunc b():\n\tpass\n");
    check(source_input, expected_output);
}

#[test]
fn function_keep_two_lines_between_2() {
    let (source_input, expected_output) = ("func a():\n\tpass\n\nfunc b():\n\tpass", "func a():\n\tpass\n\n\nfunc b():\n\tpass\n");
    check(source_input, expected_output);
}

#[test]
fn function_keep_two_lines_between_3() {
    let (source_input, expected_output) = ("func a():\n\tpass\n\n\nfunc b():\n\tpass", "func a():\n\tpass\n\n\nfunc b():\n\tpass\n");
    check(source_input, expected_output);
}

#[test]
fn function_keep_two_lines_between_4() {
    let (source_input, expected_output) = ("func a():\n\tpass\n\n\n\nfunc b():\n\tpass", "func a():\n\tpass\n\n\nfunc b():\n\tpass\n");
    check(source_input, expected_output);
}

#[test]
fn function_keep_two_lines_between_5() {
    let (source_input, expected_output) = ("\nfunc a():\n\tpass\nfunc b():\n\tpass", "func a():\n\tpass\n\n\nfunc b():\n\tpass\n");
    check(source_input, expected_output);
}

#[test]
fn function_keep_two_lines_between_6() {
    let (source_input, expected_output) = ("\n\nfunc a():\n\tpass\nfunc b():\n\tpass", "func a():\n\tpass\n\n\nfunc b():\n\tpass\n");
    check(source_input, expected_output);
}

#[test]
fn function_keep_two_lines_between_7() {
    let (source_input, expected_output) = ("# a comment\n\nfunc a():\n\tpass\nfunc b():\n\tpass", "# a comment\n\nfunc a():\n\tpass\n\n\nfunc b():\n\tpass\n");
    check(source_input, expected_output);
}

#[test]
fn function_keep_two_lines_between_8() {
    let (source_input, expected_output) = ("# a comment\n\nfunc _init():\n\tpass\nfunc b():\n\tpass", "# a comment\n\nfunc _init():\n\tpass\n\n\nfunc b():\n\tpass\n");
    check(source_input, expected_output);
}

#[test]
fn function_keep_two_lines_between_9() {
    let (source_input, expected_output) = ("func _init():\n\tpass\nfunc b():\n\tpass", "func _init():\n\tpass\n\n\nfunc b():\n\tpass\n");
    check(source_input, expected_output);
}

#[test]
fn function_keep_two_lines_between_10() {
    let (source_input, expected_output) = ("func a():\n\tpass\nfunc _init():\n\tpass", "func a():\n\tpass\n\n\nfunc _init():\n\tpass\n");
    check(source_input, expected_output);
}

#[test]
fn function_keep_two_lines_between_11() {
    let (source_input, expected_output) = ("class A:\n\tpass\nfunc b():\n\tpass", "class A:\n\tpass\n\n\nfunc b():\n\tpass\n");
    check(source_input, expected_output);
}

#[test]
fn function_keep_two_lines_between_12() {
    let (source_input, expected_output) = ("func a():\n\tpass\nclass B:\n\tpass", "func a():\n\tpass\n\n\nclass B:\n\tpass\n");
    check(source_input, expected_output);
}

#[test]
fn function_definition_enforce_spacing_rules_1() {
    let (source_input, expected_output) = ("func     a  (   b    ,    c)    :    pass", "func a(b, c):\n\tpass\n");
    check(source_input, expected_output);
}

#[test]
fn function_definition_enforce_spacing_rules_2() {
    let (source_input, expected_output) = ("func a( b = {} ,  c  =  42 ):pass", "func a(b={}, c=42):\n\tpass\n");
    check(source_input, expected_output);
}

#[test]
fn function_definition_enforce_spacing_rules_3() {
    let (source_input, expected_output) = ("func a( b ,  c  =  42 ):pass", "func a(b, c=42):\n\tpass\n");
    check(source_input, expected_output);
}

#[test]
fn function_definition_enforce_spacing_rules_4() {
    let (source_input, expected_output) = ("func a():\n\tpass\nfunc b():\n\tpass", "func a():\n\tpass\n\n\nfunc b():\n\tpass\n");
    check(source_input, expected_output);
}

#[test]
fn function_definition_enforce_spacing_rules_5() {
    let (source_input, expected_output) = ("func a():\n\tpass\n\nfunc b():\n\tpass", "func a():\n\tpass\n\n\nfunc b():\n\tpass\n");
    check(source_input, expected_output);
}

#[test]
fn function_definition_enforce_spacing_rules_6() {
    let (source_input, expected_output) = ("func a():\n\tpass\n\n\nfunc b():\n\tpass", "func a():\n\tpass\n\n\nfunc b():\n\tpass\n");
    check(source_input, expected_output);
}

#[test]
fn function_definition_enforce_spacing_rules_7() {
    let (source_input, expected_output) = ("func a():\n\tpass\n\n\n\nfunc b():\n\tpass", "func a():\n\tpass\n\n\nfunc b():\n\tpass\n");
    check(source_input, expected_output);
}

#[test]
fn function_definition_enforce_spacing_rules_8() {
    let (source_input, expected_output) = ("\nfunc a():\n\tpass\nfunc b():\n\tpass", "func a():\n\tpass\n\n\nfunc b():\n\tpass\n");
    check(source_input, expected_output);
}

#[test]
fn function_definition_enforce_spacing_rules_9() {
    let (source_input, expected_output) = ("\n\nfunc a():\n\tpass\nfunc b():\n\tpass", "func a():\n\tpass\n\n\nfunc b():\n\tpass\n");
    check(source_input, expected_output);
}

#[test]
fn function_definition_enforce_spacing_rules_10() {
    let (source_input, expected_output) = ("# a comment\n\nfunc a():\n\tpass\nfunc b():\n\tpass", "# a comment\n\nfunc a():\n\tpass\n\n\nfunc b():\n\tpass\n");
    check(source_input, expected_output);
}

#[test]
fn function_definition_enforce_spacing_rules_11() {
    let (source_input, expected_output) = ("# a comment\n\nfunc _init():\n\tpass\nfunc b():\n\tpass", "# a comment\n\nfunc _init():\n\tpass\n\n\nfunc b():\n\tpass\n");
    check(source_input, expected_output);
}

#[test]
fn function_definition_enforce_spacing_rules_12() {
    let (source_input, expected_output) = ("func _init():\n\tpass\nfunc b():\n\tpass", "func _init():\n\tpass\n\n\nfunc b():\n\tpass\n");
    check(source_input, expected_output);
}

#[test]
fn function_definition_enforce_spacing_rules_13() {
    let (source_input, expected_output) = ("func a():\n\tpass\nfunc _init():\n\tpass", "func a():\n\tpass\n\n\nfunc _init():\n\tpass\n");
    check(source_input, expected_output);
}

#[test]
fn function_definition_enforce_spacing_rules_14() {
    let (source_input, expected_output) = ("class A:\n\tpass\nfunc b():\n\tpass", "class A:\n\tpass\n\n\nfunc b():\n\tpass\n");
    check(source_input, expected_output);
}

#[test]
fn function_definition_enforce_spacing_rules_15() {
    let (source_input, expected_output) = ("func a():\n\tpass\nclass B:\n\tpass", "func a():\n\tpass\n\n\nclass B:\n\tpass\n");
    check(source_input, expected_output);
}

#[test]
fn class_trim_whitespaces_1() {
    let (source_input, expected_output) = ("class     MyClass    :    pass", "class MyClass:\n\tpass\n");
    check(source_input, expected_output);
}

#[test]
fn class_trim_whitespaces_2() {
    let (source_input, expected_output) = ("class MyClass:\n\tfunc a( b = 24 ,  c  =  42 ):pass", "class MyClass:\n\tfunc a(b=24, c=42):\n\t\tpass\n");
    check(source_input, expected_output);
}

#[test]
fn class_keep_two_lines_between_1() {
    let (source_input, expected_output) = ("class A:\n\tpass\nfunc b():\n\tpass", "class A:\n\tpass\n\n\nfunc b():\n\tpass\n");
    check(source_input, expected_output);
}

#[test]
fn class_keep_two_lines_between_2() {
    let (source_input, expected_output) = ("func a():\n\tpass\nclass B:\n\tpass", "func a():\n\tpass\n\n\nclass B:\n\tpass\n");
    check(source_input, expected_output);
}

#[test]
fn class_keep_two_lines_between_3() {
    let (source_input, expected_output) = ("# a comment\n\nclass A:\n\tpass\nclass B:\n\tpass", "# a comment\n\nclass A:\n\tpass\n\n\nclass B:\n\tpass\n");
    check(source_input, expected_output);
}

#[test]
fn class_definition_enforce_spacing_rules_1() {
    let (source_input, expected_output) = ("class     MyClass    :    pass", "class MyClass:\n\tpass\n");
    check(source_input, expected_output);
}

#[test]
fn class_definition_enforce_spacing_rules_2() {
    let (source_input, expected_output) = ("class MyClass:\n\tfunc a( b = 24 ,  c  =  42 ):pass", "class MyClass:\n\tfunc a(b=24, c=42):\n\t\tpass\n");
    check(source_input, expected_output);
}

#[test]
fn class_definition_enforce_spacing_rules_3() {
    let (source_input, expected_output) = ("class A:\n\tpass\nfunc b():\n\tpass", "class A:\n\tpass\n\n\nfunc b():\n\tpass\n");
    check(source_input, expected_output);
}

#[test]
fn class_definition_enforce_spacing_rules_4() {
    let (source_input, expected_output) = ("func a():\n\tpass\nclass B:\n\tpass", "func a():\n\tpass\n\n\nclass B:\n\tpass\n");
    check(source_input, expected_output);
}

#[test]
fn class_definition_enforce_spacing_rules_5() {
    let (source_input, expected_output) = ("# a comment\n\nclass A:\n\tpass\nclass B:\n\tpass", "# a comment\n\nclass A:\n\tpass\n\n\nclass B:\n\tpass\n");
    check(source_input, expected_output);
}

#[test]
fn variable_statement_enforce_spacing_rules_1() {
    let (source_input, expected_output) = ("var   a   =  0  ", "var a = 0\n");
    check(source_input, expected_output);
}

#[test]
fn variable_statement_enforce_spacing_rules_2() {
    let (source_input, expected_output) = ("var\tb\t=\t0\t", "var b = 0\n");
    check(source_input, expected_output);
}

#[test]
fn variable_statement_enforce_spacing_rules_3() {
    let (source_input, expected_output) = ("var \tc \t= \t0 \t", "var c = 0\n");
    check(source_input, expected_output);
}

#[test]
fn variable_statement_enforce_spacing_rules_4() {
    let (source_input, expected_output) = ("var d = 0 \n\t", "var d = 0\n");
    check(source_input, expected_output);
}

#[test]
fn variable_statement_enforce_spacing_rules_5() {
    let (source_input, expected_output) = ("var a = 0\nvar b = 0", "var a = 0\nvar b = 0\n");
    check(source_input, expected_output);
}

#[test]
fn variable_statement_enforce_spacing_rules_6() {
    let (source_input, expected_output) = ("var b = 0\n\nvar b = 0", "var b = 0\n\nvar b = 0\n");
    check(source_input, expected_output);
}

#[test]
fn variable_statement_enforce_spacing_rules_7() {
    let (source_input, expected_output) = ("var c = 0\n\n\n\nvar b = 0", "var c = 0\n\nvar b = 0\n");
    check(source_input, expected_output);
}

#[test]
fn setget_enforce_spacing_rules_1() {
    let (source_input, expected_output) = ("var a:\n\tset=set_a", "var a:\n\tset = set_a\n");
    check(source_input, expected_output);
}

#[test]
fn setget_enforce_spacing_rules_2() {
    let (source_input, expected_output) = ("var a:\n\tget=get_a", "var a:\n\tget = get_a\n");
    check(source_input, expected_output);
}

#[test]
fn setget_enforce_spacing_rules_3() {
    let (source_input, expected_output) = ("var b:\n\tset=set_b, get=get_b", "var b:\n\tset = set_b, get = get_b\n");
    check(source_input, expected_output);
}

#[test]
fn setget_enforce_spacing_rules_4() {
    let (source_input, expected_output) = ("var b:\n\tget=get_b, set=set_b", "var b:\n\tget = get_b, set = set_b\n");
    check(source_input, expected_output);
}

#[test]
fn setget_enforce_spacing_rules_5() {
    let (source_input, expected_output) = ("var c:\n\tset(value):\n\t\tc = value", "var c:\n\tset(value):\n\t\tc = value\n");
    check(source_input, expected_output);
}

#[test]
fn setget_enforce_spacing_rules_6() {
    let (source_input, expected_output) = ("var c:\n\tget:\n\t\treturn 42", "var c:\n\tget:\n\t\treturn 42\n");
    check(source_input, expected_output);
}

#[test]
fn setget_enforce_spacing_rules_7() {
    let (source_input, expected_output) = ("var d:\n\tset(value):\n\t\td = value\n\tget:\n\t\treturn 42", "var d:\n\tset(value):\n\t\td = value\n\tget:\n\t\treturn 42\n");
    check(source_input, expected_output);
}

#[test]
fn parameters_force_spaces_rules_1() {
    let (source_input, expected_output) = ("func a(): pass", "func a():\n\tpass\n");
    check(source_input, expected_output);
}

#[test]
fn parameters_force_spaces_rules_2() {
    let (source_input, expected_output) = ("func b(p1): pass", "func b(p1):\n\tpass\n");
    check(source_input, expected_output);
}

#[test]
fn parameters_force_spaces_rules_3() {
    let (source_input, expected_output) = ("func c(p1,p2): pass", "func c(p1, p2):\n\tpass\n");
    check(source_input, expected_output);
}

#[test]
fn parameters_force_spaces_rules_4() {
    let (source_input, expected_output) = ("func d(p1,p2 = 42): pass", "func d(p1, p2=42):\n\tpass\n");
    check(source_input, expected_output);
}

#[test]
fn parameters_force_spaces_rules_5() {
    let (source_input, expected_output) = ("func e(p1 = 24,p2): pass", "func e(p1=24, p2):\n\tpass\n");
    check(source_input, expected_output);
}

#[test]
fn parameters_force_spaces_rules_6() {
    let (source_input, expected_output) = ("func f(p1 = 24,p2 = 42): pass", "func f(p1=24, p2=42):\n\tpass\n");
    check(source_input, expected_output);
}

#[test]
fn enum_definition_enforce_spacing_rules_1() {
    let (source_input, expected_output) = ("enum {ONE}", "enum {\n\tONE,\n}\n");
    check(source_input, expected_output);
}

#[test]
fn enum_definition_enforce_spacing_rules_2() {
    let (source_input, expected_output) = ("enum A{ONE}", "enum A {\n\tONE,\n}\n");
    check(source_input, expected_output);
}

#[test]
fn enum_definition_enforce_spacing_rules_3() {
    let (source_input, expected_output) = ("enum A{ONE}", "enum A {\n\tONE,\n}\n");
    check(source_input, expected_output);
}

#[test]
fn enum_definition_enforce_spacing_rules_4() {
    let (source_input, expected_output) = ("enum B{ONE,}", "enum B {\n\tONE,\n}\n");
    check(source_input, expected_output);
}

#[test]
fn enum_definition_enforce_spacing_rules_5() {
    let (source_input, expected_output) = ("enum C{F = 0}", "enum C {\n\tF = 0,\n}\n");
    check(source_input, expected_output);
}

#[test]
fn enum_definition_enforce_spacing_rules_6() {
    let (source_input, expected_output) = ("enum D{F = 0,}", "enum D {\n\tF = 0,\n}\n");
    check(source_input, expected_output);
}

#[test]
fn enum_definition_enforce_spacing_rules_7() {
    let (source_input, expected_output) = ("enum E{ONE}", "enum E {\n\tONE,\n}\n");
    check(source_input, expected_output);
}

#[test]
fn enum_definition_enforce_spacing_rules_8() {
    let (source_input, expected_output) = ("enum F{F=0}", "enum F {\n\tF = 0,\n}\n");
    check(source_input, expected_output);
}

#[test]
fn enum_definition_enforce_spacing_rules_9() {
    let (source_input, expected_output) = ("class A:\n\tenum D{F = 0,}", "class A:\n\tenum D {\n\t\tF = 0,\n\t}\n");
    check(source_input, expected_output);
}

#[test]
fn enumerator_list_force_spaces_rules_1() {
    let (source_input, expected_output) = ("enum A{ONE}", "enum A {\n\tONE,\n}\n");
    check(source_input, expected_output);
}

#[test]
fn enumerator_list_force_spaces_rules_2() {
    let (source_input, expected_output) = ("enum B{ONE,}", "enum B {\n\tONE,\n}\n");
    check(source_input, expected_output);
}

#[test]
fn enumerator_list_force_spaces_rules_3() {
    let (source_input, expected_output) = ("enum C{F = 0}", "enum C {\n\tF = 0,\n}\n");
    check(source_input, expected_output);
}

#[test]
fn enumerator_list_force_spaces_rules_4() {
    let (source_input, expected_output) = ("enum D{F = 0,}", "enum D {\n\tF = 0,\n}\n");
    check(source_input, expected_output);
}

#[test]
fn enumerator_list_force_spaces_rules_5() {
    let (source_input, expected_output) = ("class A:\n\tenum D{F = 0,}", "class A:\n\tenum D {\n\t\tF = 0,\n\t}\n");
    check(source_input, expected_output);
}

#[test]
fn dictionary_enforce_spacing_rules_1() {
    let (source_input, expected_output) = (r#"var a = { "one": 1, "two": 2, "three": 3 }"#, "var a = { \"one\": 1, \"two\": 2, \"three\": 3 }\n");
    check(source_input, expected_output);
}

#[test]
fn dictionary_enforce_spacing_rules_2() {
    let (source_input, expected_output) = (r#"var b={"one":1,"two":2,"three":3}"#, "var b = { \"one\": 1, \"two\": 2, \"three\": 3 }\n");
    check(source_input, expected_output);
}

#[test]
fn dictionary_enforce_spacing_rules_3() {
    let (source_input, expected_output) = (r#"var  c  =  {  "one"  :  1  ,  "two"  :  2  ,  "three"  :  3  }"#, "var c = { \"one\": 1, \"two\": 2, \"three\": 3 }\n");
    check(source_input, expected_output);
}

#[test]
fn dictionary_enforce_spacing_rules_4() {
    let (source_input, expected_output) = ("var d={}", "var d = {}\n");
    check(source_input, expected_output);
}

#[test]
fn dictionary_enforce_spacing_rules_5() {
    let (source_input, expected_output) = (r#"var e={"one":1}"#, "var e = { \"one\": 1 }\n");
    check(source_input, expected_output);
}

#[test]
fn dictionary_enforce_spacing_rules_6() {
    let (source_input, expected_output) = (r#"var f={ "one":1 }"#, "var f = { \"one\": 1 }\n");
    check(source_input, expected_output);
}

#[test]
fn dictionary_enforce_spacing_rules_7() {
    let (source_input, expected_output) = (r#"var g={ "one":1, }"#, "var g = { \"one\": 1 }\n");
    check(source_input, expected_output);
}

#[test]
fn dictionary_enforce_spacing_rules_8() {
    let (source_input, expected_output) = ("var h = { 1: 1 }", "var h = { 1: 1 }\n");
    check(source_input, expected_output);
}

#[test]
fn dictionary_enforce_spacing_rules_9() {
    let (source_input, expected_output) = ("var i = {1:1}", "var i = { 1: 1 }\n");
    check(source_input, expected_output);
}

#[test]
fn dictionary_enforce_spacing_rules_10() {
    let (source_input, expected_output) = ("var j = {1:1,2:2}", "var j = { 1: 1, 2: 2 }\n");
    check(source_input, expected_output);
}

#[test]
fn dictionary_enforce_spacing_rules_11() {
    let (source_input, expected_output) = ("var k = {1:1,2:2,}", "var k = { 1: 1, 2: 2 }\n");
    check(source_input, expected_output);
}

#[test]
fn pair_force_spaces_rules_1() {
    let (source_input, expected_output) = ("var a = { 1: 1 }", "var a = { 1: 1 }\n");
    check(source_input, expected_output);
}

#[test]
fn pair_force_spaces_rules_2() {
    let (source_input, expected_output) = ("var b = {1:1}", "var b = { 1: 1 }\n");
    check(source_input, expected_output);
}

#[test]
fn pair_force_spaces_rules_3() {
    let (source_input, expected_output) = ("var c = {1:1,2:2}", "var c = { 1: 1, 2: 2 }\n");
    check(source_input, expected_output);
}

#[test]
fn pair_force_spaces_rules_4() {
    let (source_input, expected_output) = ("var d = {1:1,2:2,}", "var d = { 1: 1, 2: 2 }\n");
    check(source_input, expected_output);
}

#[test]
fn array_enforce_spacing_rules_1() {
    let (source_input, expected_output) = ("var a = [ 1, 2, 3 ]", "var a = [1, 2, 3]\n");
    check(source_input, expected_output);
}

#[test]
fn array_enforce_spacing_rules_2() {
    let (source_input, expected_output) = ("var b=[1,2,3]", "var b = [1, 2, 3]\n");
    check(source_input, expected_output);
}

#[test]
fn array_enforce_spacing_rules_3() {
    let (source_input, expected_output) = ("var  c  =  [  1  ,  2  ,  3  ]", "var c = [1, 2, 3]\n");
    check(source_input, expected_output);
}

#[test]
fn array_enforce_spacing_rules_4() {
    let (source_input, expected_output) = ("var d=[]", "var d = []\n");
    check(source_input, expected_output);
}

#[test]
fn array_enforce_spacing_rules_5() {
    let (source_input, expected_output) = ("var e=[1]", "var e = [1]\n");
    check(source_input, expected_output);
}

#[test]
fn array_enforce_spacing_rules_6() {
    let (source_input, expected_output) = ("var f=[ 1 ]", "var f = [1]\n");
    check(source_input, expected_output);
}

#[test]
fn array_enforce_spacing_rules_7() {
    let (source_input, expected_output) = ("var g=[ 1, ]", "var g = [1]\n");
    check(source_input, expected_output);
}

#[test]
fn annotations_enforce_spacing_rules_1() {
    let (source_input, expected_output) = ("@export var a = 0", "@export var a = 0\n");
    check(source_input, expected_output);
}

#[test]
fn annotations_enforce_spacing_rules_2() {
    let (source_input, expected_output) = ("@export @onready var b = 0", "@export @onready var b = 0\n");
    check(source_input, expected_output);
}

#[test]
fn annotations_enforce_spacing_rules_3() {
    let (source_input, expected_output) = ("  @export  var c = 0", "@export var c = 0\n");
    check(source_input, expected_output);
}

#[test]
fn annotations_enforce_spacing_rules_4() {
    let (source_input, expected_output) = ("  @onready  @export  var d = 0", "@onready @export var d = 0\n");
    check(source_input, expected_output);
}

#[test]
fn annotations_enforce_spacing_rules_5() {
    let (source_input, expected_output) = ("  @  onready  @  export  var e = 0", "@onready @export var e = 0\n");
    check(source_input, expected_output);
}

#[test]
fn integer_use_underscore_to_make_large_numbers_more_readable_1() {
    let (source_input, expected_output) = ("var a = 999999", "var a = 999999\n");
    check(source_input, expected_output);
}

#[test]
fn integer_use_underscore_to_make_large_numbers_more_readable_2() {
    let (source_input, expected_output) = ("var b = 12345", "var b = 12345\n");
    check(source_input, expected_output);
}

#[test]
fn integer_use_underscore_to_make_large_numbers_more_readable_3() {
    let (source_input, expected_output) = ("var c = 123", "var c = 123\n");
    check(source_input, expected_output);
}

#[test]
fn integer_use_underscore_to_make_large_numbers_more_readable_4() {
    let (source_input, expected_output) = ("var d = 0", "var d = 0\n");
    check(source_input, expected_output);
}

#[test]
fn integer_use_underscore_to_make_large_numbers_more_readable_5() {
    let (source_input, expected_output) = ("var e = 1234567890", "var e = 1_234_567_890\n");
    check(source_input, expected_output);
}

#[test]
fn integer_use_underscore_to_make_large_numbers_more_readable_6() {
    let (source_input, expected_output) = ("var f = 0x1a3f", "var f = 0x1a3f\n");
    check(source_input, expected_output);
}

#[test]
fn integer_use_underscore_to_make_large_numbers_more_readable_7() {
    let (source_input, expected_output) = ("var g = 0x1a3f6d", "var g = 0x1a_3f6d\n");
    check(source_input, expected_output);
}

#[test]
fn integer_use_underscore_to_make_large_numbers_more_readable_8() {
    let (source_input, expected_output) = ("var h = 0xfffff8f80000", "var h = 0xffff_f8f8_0000\n");
    check(source_input, expected_output);
}

#[test]
fn integer_use_underscore_to_make_large_numbers_more_readable_9() {
    let (source_input, expected_output) = ("var i = 0b1101", "var i = 0b1101\n");
    check(source_input, expected_output);
}

#[test]
fn integer_use_underscore_to_make_large_numbers_more_readable_10() {
    let (source_input, expected_output) = ("var j = 0b110100", "var j = 0b11_0100\n");
    check(source_input, expected_output);
}

#[test]
fn integer_use_underscore_to_make_large_numbers_more_readable_11() {
    let (source_input, expected_output) = ("var k = 0b110100101010", "var k = 0b1101_0010_1010\n");
    check(source_input, expected_output);
}

#[test]
fn float_force_leading_or_trailing_zero_1() {
    let (source_input, expected_output) = ("var a = .234", "var a = 0.234\n");
    check(source_input, expected_output);
}

#[test]
fn float_force_leading_or_trailing_zero_2() {
    let (source_input, expected_output) = ("var b = 13.", "var b = 13.0\n");
    check(source_input, expected_output);
}

#[test]
fn string_fix_string_quotes_1() {
    let (source_input, expected_output) = (r#"var a = "hello world""#, "var a = \"hello world\"\n");
    check(source_input, expected_output);
}

#[test]
fn string_fix_string_quotes_2() {
    let (source_input, expected_output) = ("var b = 'hello world'", "var b = \"hello world\"\n");
    check(source_input, expected_output);
}

#[test]
fn string_fix_string_quotes_3() {
    let (source_input, expected_output) = (r#"var c = 'hello" "world'"#, "var c = 'hello\" \"world'\n");
    check(source_input, expected_output);
}

#[test]
fn string_fix_string_quotes_4() {
    let (source_input, expected_output) = ("var d = 'hello\\\' \\\'world'", "var d = \"hello' 'world\"\n");
    check(source_input, expected_output);
}

#[test]
fn string_fix_string_quotes_5() {
    let (source_input, expected_output) = (r#"var e = "hello\" \"world""#, "var e = 'hello\" \"world'\n");
    check(source_input, expected_output);
}

#[test]
fn string_fix_string_quotes_6() {
    let (source_input, expected_output) = (r#"var f = 'hello\"\' \'\"world'"#, "var f = \"hello\\\"' '\\\"world\"\n");
    check(source_input, expected_output);
}

#[test]
fn string_fix_string_quotes_7() {
    let (source_input, expected_output) = (r#"var g = "hello\"\' \'\"world""#, "var g = \"hello\\\"' '\\\"world\"\n");
    check(source_input, expected_output);
}

#[test]
fn string_fix_string_quotes_8() {
    let (source_input, expected_output) = (r#"var h = 'hello\"\'\"\' \'\"\'\"world'"#, "var h = \"hello\\\"'\\\"' '\\\"'\\\"world\"\n");
    check(source_input, expected_output);
}

#[test]
fn string_fix_string_quotes_9() {
    let (source_input, expected_output) = (r#"var i = "hello\"\'\"\' \'\"\'\"world""#, "var i = \"hello\\\"'\\\"' '\\\"'\\\"world\"\n");
    check(source_input, expected_output);
}

#[test]
fn unary_operator_enforce_spacing_rules_1() {
    let (source_input, expected_output) = ("var a=-1", "var a = -1\n");
    check(source_input, expected_output);
}

#[test]
fn unary_operator_remove_useless_operator_1() {
    let (source_input, expected_output) = ("var a=+1", "var a = 1\n");
    check(source_input, expected_output);
}

#[test]
fn unary_operator_prefer_the_plain_english_versions_of_boolean_operators_1() {
    let (source_input, expected_output) = ("var a = !true", "var a = not true\n");
    check(source_input, expected_output);
}

#[test]
fn binary_operator_force_spaces_rules_1() {
    let (source_input, expected_output) = ("var a = 1+1", "var a = 1 + 1\n");
    check(source_input, expected_output);
}

#[test]
fn binary_operator_prefer_the_plain_english_versions_of_boolean_operators_1() {
    let (source_input, expected_output) = ("var a = foo&&bar", "var a = foo and bar\n");
    check(source_input, expected_output);
}

#[test]
fn binary_operator_prefer_the_plain_english_versions_of_boolean_operators_2() {
    let (source_input, expected_output) = ("var a = foo and bar", "var a = foo and bar\n");
    check(source_input, expected_output);
}

#[test]
fn binary_operator_prefer_the_plain_english_versions_of_boolean_operators_3() {
    let (source_input, expected_output) = ("var b = foo||bar", "var b = foo or bar\n");
    check(source_input, expected_output);
}

#[test]
fn binary_operator_prefer_the_plain_english_versions_of_boolean_operators_4() {
    let (source_input, expected_output) = ("var b = foo or bar", "var b = foo or bar\n");
    check(source_input, expected_output);
}

#[test]
fn binary_operator_prefer_the_plain_english_versions_of_boolean_operators_5() {
    let (source_input, expected_output) = ("var c = foo&&bar||!baz", "var c = foo and bar or not baz\n");
    check(source_input, expected_output);
}

#[test]
fn binary_operator_prefer_the_plain_english_versions_of_boolean_operators_6() {
    let (source_input, expected_output) = ("var c = foo and bar or not baz", "var c = foo and bar or not baz\n");
    check(source_input, expected_output);
}

#[test]
fn parenthesized_expression_remove_unnecessary_parentheses_1() {
    let (source_input, expected_output) = ("var a = (true)", "var a = true\n");
    check(source_input, expected_output);
}

#[test]
fn parenthesized_expression_remove_unnecessary_parentheses_2() {
    let (source_input, expected_output) = ("var b = (is_colliding())", "var b = is_colliding()\n");
    check(source_input, expected_output);
}
