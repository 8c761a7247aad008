use fortran_rust_compiler::parser::{
    parse, parse_assign_to_variable, parse_call_func, parse_declare_variable,
    parse_do_statement, print_offset, range_header_text, ParseNode, Rule, TranslateError,
};

fn leaf(rule: Rule, start: usize, text: &str) -> ParseNode {
    ParseNode { rule, start, end: start + text.len(), text: text.to_string(), children: vec![] }
}

fn branch(rule: Rule, start: usize, text: &str, children: Vec<ParseNode>) -> ParseNode {
    ParseNode { rule, start, end: start + text.len(), text: text.to_string(), children }
}

fn minimal_program() -> Vec<ParseNode> {
    vec![
        leaf(Rule::ProgramKeyword, 0, "program"),
        leaf(Rule::ProgramName, 8, "hello"),
        leaf(Rule::NonNestNewLine, 13, "\n"),
        branch(
            Rule::DeclareVariable,
            14,
            "integer :: x",
            vec![leaf(Rule::VariableType, 14, "integer"), leaf(Rule::Identifier, 25, "x")],
        ),
        branch(
            Rule::AssignToVariable,
            27,
            "x = 1",
            vec![leaf(Rule::Identifier, 27, "x "), leaf(Rule::Num, 31, "1")],
        ),
        leaf(Rule::EndProgramKeyword, 33, "end program"),
        leaf(Rule::Eoi, 44, ""),
    ]
}

#[test]
fn minimal_program_translates() {
    assert_eq!(
        parse(&minimal_program()),
        Ok("fn hello() {\n    let mut x: usize;\n    x = 1;\n\n}\n".to_string())
    );
}

#[test]
fn nodes_after_end_of_input_are_ignored() {
    let mut nodes = minimal_program();
    nodes.push(leaf(Rule::Other, 50, "junk"));
    assert!(parse(&nodes).is_ok());
}

#[test]
fn numbers_and_additions_are_copied() {
    let nodes = vec![leaf(Rule::Num, 0, "1"), leaf(Rule::Add, 1, "+"), leaf(Rule::Num, 2, "2")];
    assert_eq!(parse(&nodes), Ok("1 + 2".to_string()));
}

#[test]
fn unhandled_rule_is_an_error() {
    let nodes = vec![leaf(Rule::ProgramKeyword, 0, "program"), leaf(Rule::Identifier, 8, "y")];
    assert_eq!(parse(&nodes), Err(TranslateError::UnexpectedRule(Rule::Identifier, 8, 9)));
}

#[test]
fn real_maps_to_f64() {
    let decl = branch(
        Rule::DeclareVariable,
        0,
        "real :: r",
        vec![leaf(Rule::VariableType, 0, "real"), leaf(Rule::Identifier, 8, "r")],
    );
    assert_eq!(parse_declare_variable(&decl, 2), Ok("        let mut r: f64;\n".to_string()));
}

#[test]
fn unknown_type_is_an_error() {
    let decl = branch(
        Rule::DeclareVariable,
        0,
        "logical :: b",
        vec![leaf(Rule::VariableType, 0, "logical"), leaf(Rule::Identifier, 11, "b")],
    );
    assert_eq!(parse_declare_variable(&decl, 0), Err(TranslateError::UnknownType(0, 7)));
}

#[test]
fn assignment_trims_the_name() {
    let assign = branch(
        Rule::AssignToVariable,
        0,
        "  total  = 42",
        vec![leaf(Rule::Identifier, 0, "  total  "), leaf(Rule::Num, 11, "42")],
    );
    assert_eq!(parse_assign_to_variable(&assign, 1), Ok("    total = 42;\n".to_string()));
}

#[test]
fn print_call_becomes_println() {
    let call = branch(
        Rule::CallFunction,
        0,
        "print *, x",
        vec![leaf(Rule::FuncName, 0, "print"), leaf(Rule::FuncArgs, 9, "x")],
    );
    assert_eq!(parse_call_func(&call, 1), Ok("    println!(\"{}\", x);".to_string()));
    assert_eq!(parse(&vec![call]), Ok("println!(\"{}\", x);".to_string()));
}

#[test]
fn other_call_keeps_its_name() {
    let call = branch(
        Rule::CallFunction,
        0,
        "call foo(a)",
        vec![leaf(Rule::FuncName, 5, "foo"), leaf(Rule::FuncArgs, 9, "a")],
    );
    assert_eq!(parse_call_func(&call, 3), Ok("foo(a);".to_string()));
}

fn do_loop(range: &str) -> ParseNode {
    branch(
        Rule::DoStatement,
        0,
        "do i = 1, 10 ... end do",
        vec![
            leaf(Rule::DoKeyword, 0, "do"),
            leaf(Rule::DoVariable, 2, " i "),
            leaf(Rule::RangeExpr, 6, range),
            leaf(Rule::DoLoopBody, 13, "x = x + 1\n"),
            leaf(Rule::EndDoKeyword, 23, "end do"),
        ],
    )
}

#[test]
fn do_loop_becomes_for_over_range() {
    assert_eq!(
        parse_do_statement(&do_loop("= 1,  10"), 1),
        Ok("    for i in 1..10 {\n        x = x + 1\n    };\n".to_string())
    );
}

#[test]
fn malformed_range_is_an_error() {
    assert_eq!(
        parse_do_statement(&do_loop("= a, b"), 0),
        Err(TranslateError::MalformedRange(6, 12))
    );
}

#[test]
fn range_header_is_half_open() {
    assert_eq!(range_header_text("3", "7"), "3..7 {\n".to_string());
}

#[test]
fn offset_is_four_spaces_per_level() {
    let mut out = String::from(">");
    print_offset(&mut out, 3);
    assert_eq!(out, format!(">{}", " ".repeat(12)));
}

#[test]
fn loop_variable_trims_unicode_spaces() {
    let node = branch(
        Rule::DoStatement,
        0,
        "do\u{3000}k\t",
        vec![leaf(Rule::DoKeyword, 0, "do"), leaf(Rule::DoVariable, 2, "\u{3000}k\t")],
    );
    assert_eq!(parse_do_statement(&node, 0), Ok("for k in ".to_string()));
}

#[test]
fn minimal_real_program_translates() {
    let mut nodes = minimal_program();
    nodes.remove(2);
    nodes[2] = branch(
        Rule::DeclareVariable,
        14,
        "real :: y",
        vec![leaf(Rule::Identifier, 22, "y"), leaf(Rule::VariableType, 14, "real")],
    );
    nodes[3] = branch(
        Rule::AssignToVariable,
        24,
        "y = 2.5",
        vec![leaf(Rule::Identifier, 24, "y"), leaf(Rule::Num, 28, "2.5")],
    );
    assert_eq!(
        parse(&nodes),
        Ok("fn hello() {\n    let mut y: f64;\n    y = 2.5;\n\n}\n".to_string())
    );
}
