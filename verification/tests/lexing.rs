use lib::grammar::{try_build_grammer, Grammer, GrammerPart, TokenType};
use lib::lexer::{lex, try_lex, Token};

fn grammar_with(terms: &[&str]) -> Grammer {
    let mut g = Grammer::default();
    for t in terms {
        g.terminals.push(t.to_string());
    }
    g
}

fn lexed(terms: &[&str], input: &str) -> Option<String> {
    try_lex(&grammar_with(terms), &input.to_string()).map(|v| format!("{:?}", v))
}

#[test]
fn lex_numbers_identifiers_and_symbols() {
    let g = grammar_with(&["+"]);
    let tokens = lex(&g, "12 + x_1 3".to_string());
    assert_eq!(
        format!("{:?}", tokens),
        "[Number(\"12\"), Symbol(\"+\"), ID(\"x_1\"), Number(\"3\"), END]"
    );
}

#[test]
fn lex_takes_the_longest_terminal() {
    assert_eq!(lexed(&["=", "=="], "==="), Some("[Symbol(\"==\"), Symbol(\"=\"), END]".to_string()));
    assert_eq!(lexed(&["if", "iff"], "iff if"), Some("[Symbol(\"iff\"), Symbol(\"if\"), END]".to_string()));
}

#[test]
fn terminals_win_over_identifiers() {
    assert_eq!(lexed(&["let"], "letter"), Some("[Symbol(\"let\"), ID(\"ter\"), END]".to_string()));
}

#[test]
fn lex_stops_on_unknown_character() {
    assert_eq!(lexed(&[], "1 # 2"), None);
    assert_eq!(lexed(&[], "_x"), None);
}

#[test]
fn empty_terminal_would_loop() {
    assert_eq!(lexed(&[""], "1"), None);
    assert_eq!(lexed(&["", "+"], " + "), Some("[Symbol(\"+\"), END]".to_string()));
}

#[test]
fn lex_of_blank_text_is_end_only() {
    assert_eq!(lexed(&[], ""), Some("[END]".to_string()));
    assert_eq!(lexed(&[], " \n\t"), Some("[END]".to_string()));
}

#[test]
fn unicode_whitespace_and_letters() {
    assert_eq!(lexed(&[], "\u{A0}été2"), Some("[ID(\"été2\"), END]".to_string()));
}

#[test]
fn terminal_advances_by_its_bytes() {
    assert_eq!(lexed(&["é"], "éab"), Some("[Symbol(\"é\"), ID(\"b\"), END]".to_string()));
}

#[test]
fn lex_with_grammar_from_text() {
    let g = try_build_grammer(&"<e> ::= NUMBER { \"+\" NUMBER };".to_string()).unwrap();
    let tokens = lex(&g, "1+2".to_string());
    assert_eq!(format!("{:?}", tokens), "[Number(\"1\"), Symbol(\"+\"), Number(\"2\"), END]");
}

#[test]
fn token_values_and_matching() {
    assert_eq!(Token::END.get_value(), "END");
    assert_eq!(Token::ID("x".to_string()).get_value(), "x");
    assert!(Token::END.is_end());
    assert!(!Token::Number("1".to_string()).is_end());
    let plus = GrammerPart::Terminal("+".to_string());
    assert!(Token::Symbol("+".to_string()).matches(&plus));
    assert!(!Token::Symbol("-".to_string()).matches(&plus));
    assert!(Token::Number("7".to_string()).matches(&GrammerPart::Base(TokenType::Number)));
    assert!(!Token::Number("7".to_string()).matches(&GrammerPart::Base(TokenType::ID)));
    assert!(Token::ID("a".to_string()).matches(&GrammerPart::Base(TokenType::ID)));
    assert!(!Token::ID("a".to_string()).matches(&plus));
}

#[test]
fn token_texts_give_back_the_text_without_whitespace() {
    let g = grammar_with(&["==", "+", "("]);
    let input = " a==b +( 12\tc_d ";
    let tokens = lex(&g, input.to_string());
    let mut joined = String::new();
    for t in &tokens[..tokens.len() - 1] {
        joined.push_str(&t.get_value());
    }
    let stripped: String = input.chars().filter(|c| !c.is_whitespace()).collect();
    assert_eq!(joined, stripped);
    assert_eq!(lexed(&["=="], "a==b"), Some("[ID(\"a\"), Symbol(\"==\"), ID(\"b\"), END]".to_string()));
}

#[test]
fn grammar_clone_keeps_everything() {
    let g = try_build_grammer(&"<e> ::= NUMBER { \"+\" ( ID | NUMBER ) };".to_string()).unwrap();
    let c = g.clone();
    assert_eq!(format!("{:?}", c), format!("{:?}", g));
}

#[test]
fn whitespace_test_agrees_with_std_on_every_char() {
    for u in 0u32..=0x10FFFF {
        if let Some(c) = char::from_u32(u) {
            assert_eq!(lib::text::char_is_whitespace(c), c.is_whitespace(), "{:#x}", u);
        }
    }
}

#[test]
fn grammar_with_separator_in_every_piece_is_built() {
    let text = "<a> ::= NUMBER;\n  \n; <b> ::= ID <a>;".to_string();
    assert!(try_build_grammer(&text).is_some());
}
