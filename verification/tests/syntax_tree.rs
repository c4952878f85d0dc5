use lib::cst::{parse_expression, try_parse_expression, ParseFailure};
use lib::grammar::try_build_grammer;
use lib::lexer::lex;

fn parsed(grammar: &str, input: &str, depth: usize) -> String {
    let g = try_build_grammer(&grammar.to_string()).unwrap();
    let tokens = lex(&g, input.to_string());
    format!("{:?}", try_parse_expression(&g, &tokens, depth))
}

#[test]
fn parse_sum_with_repetition() {
    let g = try_build_grammer(&"<e> ::= NUMBER { \"+\" NUMBER };".to_string()).unwrap();
    let tokens = lex(&g, "1 + 2 + 3".to_string());
    let tree = parse_expression(&g, &tokens);
    let leaf = |s: &str| format!("CstNode {{ value: Some(\"{}\"), children: [] }}", s);
    let wrap = |s: &str| format!("CstNode {{ value: None, children: [{}] }}", leaf(s));
    let expected = format!(
        "CstNode {{ value: None, children: [{}, {}, {}, {}, {}] }}",
        leaf("1"),
        wrap("+"),
        wrap("2"),
        wrap("+"),
        wrap("3")
    );
    assert_eq!(format!("{:?}", tree), expected);
}

#[test]
fn parse_through_rules() {
    let out = parsed("<e> ::= <n> <n>; <n> ::= ID;", "x y", 100);
    assert_eq!(
        out,
        "Ok(Some(CstNode { value: None, children: [CstNode { value: None, children: [CstNode { value: Some(\"x\"), children: [] }] }, CstNode { value: None, children: [CstNode { value: Some(\"y\"), children: [] }] }] }))"
    );
}

#[test]
fn terminals_of_a_list_are_compared_with_its_first_token() {
    assert_eq!(parsed("<e> ::= <n> \"!\"; <n> ::= ID;", "x!", 100), "Ok(None)");
    assert_eq!(
        parsed("<e> ::= ID \"!\";", "x!", 100),
        "Ok(None)"
    );
}

#[test]
fn no_match_is_none() {
    assert_eq!(parsed("<e> ::= NUMBER;", "x", 100), "Ok(None)");
    assert_eq!(parsed("<e> ::= NUMBER;", "", 100), "Ok(None)");
}

#[test]
fn choice_and_option() {
    assert_eq!(
        parsed("<e> ::= ( \"a\" | \"b\" ) [ \"c\" ];", "b", 100),
        "Ok(Some(CstNode { value: None, children: [CstNode { value: None, children: [CstNode { value: None, children: [CstNode { value: Some(\"b\"), children: [] }] }] }] }))"
    );
}

#[test]
fn missing_rule_is_reported() {
    assert_eq!(parsed("<e> ::= <nowhere>;", "x", 100), "Err(MissingRule)");
    let g = lib::grammar::Grammer::default();
    let tokens = lex(&g, "x".to_string());
    assert_eq!(try_parse_expression(&g, &tokens, 10).unwrap_err(), ParseFailure::MissingRule);
}

#[test]
fn repetition_without_progress_is_reported() {
    assert_eq!(parsed("<e> ::= { [ \"x\" ] };", "y", 100), "Err(Loops)");
}

#[test]
fn left_recursion_runs_out_of_depth() {
    assert_eq!(parsed("<e> ::= <e>;", "y", 50), "Err(OutOfDepth)");
}

#[test]
fn more_depth_gives_the_same_answer() {
    let g = "<e> ::= <n> <n>; <n> ::= ID;";
    assert_eq!(parsed(g, "x y", 2), parsed(g, "x y", 1000));
    assert_eq!(parsed(g, "x y", 1), "Err(OutOfDepth)");
}

#[test]
fn tree_clone_keeps_everything() {
    let g = try_build_grammer(&"<e> ::= NUMBER { \"+\" NUMBER };".to_string()).unwrap();
    let tokens = lex(&g, "1+2".to_string());
    let tree = parse_expression(&g, &tokens);
    assert_eq!(format!("{:?}", tree.clone()), format!("{:?}", tree));
}
