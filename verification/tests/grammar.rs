use lib::grammar::{
    build_grammer, consume_until, get_terminals, parse_rule, try_build_grammer, Grammer,
};
use lib::text::CharStream;

fn rule_of(s: &str) -> String {
    let mut chars = CharStream::new(s);
    format!("{:?}", parse_rule(&mut chars))
}

#[test]
fn consume_until_stops_after_the_character() {
    let mut chars = CharStream::new("abc>def");
    assert_eq!(consume_until(&mut chars, '>'), "abc");
    assert_eq!(chars.next(), Some('d'));
    let mut chars = CharStream::new("abc");
    assert_eq!(consume_until(&mut chars, '>'), "abc");
    assert_eq!(chars.next(), None);
    let mut chars = CharStream::new(">x");
    assert_eq!(consume_until(&mut chars, '>'), "");
    assert_eq!(chars.peek(), Some('x'));
}

#[test]
fn parse_rule_reads_parts() {
    assert_eq!(
        rule_of("<expr> \"+\" NUMBER ID"),
        "[NonTerminal(\"expr\"), Terminal(\"+\"), Base(Number), Base(ID)]"
    );
}

#[test]
fn parse_rule_reads_alternatives() {
    assert_eq!(
        rule_of("\"a\" | \"b\" <c>"),
        "[Choice([[Terminal(\"a\")], [Terminal(\"b\"), NonTerminal(\"c\")]])]"
    );
}

#[test]
fn parse_rule_reads_nested_lists() {
    assert_eq!(
        rule_of("NUMBER { \"+\" NUMBER } [ \"-\" ] ( <x> )"),
        "[Base(Number), Repeat([Terminal(\"+\"), Base(Number)]), Optional([Terminal(\"-\")]), Group([NonTerminal(\"x\")])]"
    );
}

#[test]
fn parse_rule_stops_at_closing_bracket() {
    let mut chars = CharStream::new("\"x\" } <y>");
    assert_eq!(format!("{:?}", parse_rule(&mut chars)), "[Terminal(\"x\")]");
    assert_eq!(chars.next(), Some(' '));
    assert_eq!(chars.next(), Some('<'));
}

#[test]
fn parse_rule_word_swallows_following_character() {
    assert_eq!(rule_of("{ NUMBER}\"x\""), "[Repeat([Base(Number), Terminal(\"x\")])]");
    assert_eq!(rule_of("foo \"x\""), "[Terminal(\"x\")]");
}

#[test]
fn terminals_are_quoted_texts() {
    let mut text = "<a> ::= \"+\" | \"-\" \"+\";".to_string();
    let mut terms = Vec::new();
    get_terminals(&mut text, &mut terms);
    terms.sort();
    assert_eq!(terms, vec!["+".to_string(), "-".to_string()]);
    assert_eq!(text, "<a> ::= \"+\" | \"-\" \"+\";");
}

#[test]
fn default_grammar_is_empty() {
    let g = Grammer::default();
    assert!(g.start_rule.is_empty());
    assert!(g.rules.is_empty());
    assert!(g.terminals.is_empty());
    assert!(g.ignore.is_empty());
}

#[test]
fn build_grammer_reads_rules() {
    let mut text = "<expr> ::= <term> { \"+\" <term> };\n<term> ::= NUMBER;\n".to_string();
    let g = build_grammer(&mut text).unwrap();
    assert_eq!(g.start_rule, "expr");
    assert_eq!(g.rules.len(), 2);
    let expr = g.rules.iter().find(|r| r.name == "expr").unwrap();
    assert_eq!(
        format!("{:?}", expr.parts),
        "[NonTerminal(\"term\"), Repeat([Terminal(\"+\"), NonTerminal(\"term\")])]"
    );
    let term = g.rules.iter().find(|r| r.name == "term").unwrap();
    assert_eq!(format!("{:?}", term.parts), "[Base(Number)]");
    assert_eq!(g.terminals, vec!["+".to_string()]);
}

#[test]
fn later_rule_of_a_name_replaces_earlier() {
    let text = "<a> ::= NUMBER; <b> ::= ID; <a> ::= ID;".to_string();
    let g = try_build_grammer(&text).unwrap();
    assert_eq!(g.start_rule, "a");
    assert_eq!(g.rules.len(), 2);
    let a = g.rules.iter().find(|r| r.name == "a").unwrap();
    assert_eq!(format!("{:?}", a.parts), "[Base(ID)]");
}

#[test]
fn rule_without_separator_is_refused() {
    assert!(try_build_grammer(&"<a> ::= NUMBER; nonsense".to_string()).is_none());
    let g = try_build_grammer(&" ; \n ;".to_string()).unwrap();
    assert!(g.rules.is_empty());
    assert!(g.start_rule.is_empty());
}
