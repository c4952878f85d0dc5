use lib::ast::{
    build_proirity_map, eval_expression, expression_lines, parse_expression, tokenizer,
    try_eval_expression, try_parse_expression, try_tokenize, Expr, OpType, Token,
};

fn parse_str(s: &str) -> Expr {
    let map = build_proirity_map();
    let tokens = tokenizer(s, &map);
    parse_expression(&tokens)
}

fn eval_str(s: &str) -> Option<i32> {
    let map = build_proirity_map();
    let tokens = try_tokenize(s, &map)?;
    let e = try_parse_expression(&tokens)?;
    try_eval_expression(&e)
}

#[test]
fn priority_of_each_operator() {
    assert_eq!(OpType::Add(2).get_priority(), 2);
    assert_eq!(OpType::Multiply(1).get_priority(), 1);
    assert_eq!(OpType::Divide(7).get_priority(), 7);
    assert_eq!(OpType::Subtract(0).get_priority(), 0);
}

#[test]
fn priority_map_entries() {
    let map = build_proirity_map();
    assert_eq!(
        map,
        vec![
            ('+', OpType::Add(2)),
            ('-', OpType::Subtract(2)),
            ('/', OpType::Divide(1)),
            ('*', OpType::Multiply(1)),
        ]
    );
}

#[test]
fn tokenizer_reads_each_character() {
    let map = build_proirity_map();
    let tokens = tokenizer("(12 + 3)*4", &map);
    assert_eq!(
        format!("{:?}", tokens),
        "[Delimiter(\"(\"), Lit(1), Lit(2), Op(Add(2)), Lit(3), Delimiter(\")\"), Op(Multiply(1)), Lit(4)]"
    );
}

#[test]
fn tokenizer_stops_on_unknown_characters() {
    let map = build_proirity_map();
    assert!(try_tokenize("1 a", &map).is_none());
    assert!(try_tokenize("1\t2", &map).is_none());
    assert!(try_tokenize("1+2", &Vec::new()).is_none());
    assert!(try_tokenize("", &map).unwrap().is_empty());
}

#[test]
fn tokens_of_joined_texts_are_joined() {
    let map = build_proirity_map();
    let mut a = format!("{:?}", tokenizer("1+2", &map));
    let b = format!("{:?}", tokenizer("*3", &map));
    let whole = format!("{:?}", tokenizer("1+2*3", &map));
    a.pop();
    assert_eq!(format!("{}, {}", a, &b[1..]), whole);
}

#[test]
fn spaces_change_no_token() {
    let map = build_proirity_map();
    assert_eq!(
        format!("{:?}", tokenizer("1 + 2 ", &map)),
        format!("{:?}", tokenizer("1+2", &map))
    );
}

#[test]
fn get_op_of_operator_token() {
    assert_eq!(Token::Op(OpType::Subtract(2)).get_op(), OpType::Subtract(2));
}

#[test]
fn multiplication_binds_tighter() {
    let e = parse_str("1+2*3");
    assert_eq!(
        format!("{:?}", e),
        "Binary { left: Lit(1), op: Add(2), right: Binary { left: Lit(2), op: Multiply(1), right: Lit(3) } }"
    );
    assert_eq!(eval_expression(&e), 7);
    assert_eq!(eval_str("2*3+1"), Some(7));
}

#[test]
fn equal_priorities_group_from_the_left() {
    let e = parse_str("8-2-1");
    assert_eq!(
        format!("{:?}", e),
        "Binary { left: Binary { left: Lit(8), op: Subtract(2), right: Lit(2) }, op: Subtract(2), right: Lit(1) }"
    );
    assert_eq!(eval_expression(&e), 5);
    assert_eq!(eval_str("8/2/2"), Some(2));
}

#[test]
fn parentheses_group() {
    assert_eq!(eval_str("(1+2)*3"), Some(9));
    assert_eq!(format!("{:?}", parse_str("(1+2)")), format!("{:?}", parse_str("1+2")));
    assert_eq!(format!("{:?}", parse_str("((7))")), "Lit(7)");
}

#[test]
fn division_rounds_toward_zero() {
    assert_eq!(eval_str("7/2"), Some(3));
    assert_eq!(eval_str("(0-7)/2"), Some(-3));
    assert_eq!(eval_str("7/(0-2)"), Some(-3));
}

#[test]
fn evaluation_fails_on_zero_divisor_and_overflow() {
    assert_eq!(eval_str("1/0"), None);
    assert_eq!(eval_str("9*9*9*9*9*9*9*9*9*9"), None);
    assert_eq!(eval_str("9*9*9*9*9*9*9*9*9"), Some(387420489));
}

#[test]
fn parser_gives_up_on_broken_expressions() {
    let map = build_proirity_map();
    for s in ["1+", "", "()", "+1", "1 2", ")"] {
        let tokens = tokenizer(s, &map);
        assert!(try_parse_expression(&tokens).is_none(), "{}", s);
    }
    let tokens = tokenizer("(12", &map);
    assert_eq!(format!("{:?}", try_parse_expression(&tokens)), "Some(Lit(1))");
}

#[test]
fn tree_drawing() {
    let e = parse_str("1+2*3");
    let lines = expression_lines(&e, &String::new(), false, true);
    assert_eq!(
        lines,
        vec!["│  +", "│  ├─1", "│  └─*", "│    ├─2", "│    └─3"]
    );
    let lit = Expr::Lit(-42);
    assert_eq!(expression_lines(&lit, &">".to_string(), true, false), vec![">└─-42"]);
    let big = Expr::Lit(i32::MIN);
    assert_eq!(expression_lines(&big, &String::new(), false, false), vec!["├─-2147483648"]);
}
