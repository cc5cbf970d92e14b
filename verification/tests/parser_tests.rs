use lib::parser::{parse_tokens, DatalogProgram, Parser, Predicate, Rule};
use lib::scanner::scanner;
use lib::token::TokenType;

const EXAMPLE: &str = "Schemes:\n  a(x)\n  b(y)\n\nFacts:\n  a('1').\n  a('2').\n  a('4').\n\nRules:\n  b(y) :- a(y).\n\nQueries:\n  a(x)?\n  b(y)?\n";

fn parse_text(text: &str) -> Result<DatalogProgram, lib::parser::ParseError> {
    let tokens = scanner(String::from(text)).ok().unwrap();
    parse_tokens(tokens)
}

fn pred(name: &str, params: &[&str]) -> Predicate {
    Predicate { name: String::from(name), parameters: params.iter().map(|p| String::from(*p)).collect() }
}

#[test]
fn parses_the_example_program() {
    let p = parse_text(EXAMPLE).ok().unwrap();
    let schemes: Vec<String> = p.schemes.iter().map(|s| s.to_string()).collect();
    assert_eq!(schemes, vec!["a(x)", "b(y)"]);
    let facts: Vec<String> = p.facts.iter().map(|s| s.to_string()).collect();
    assert_eq!(facts, vec!["a('1')", "a('2')", "a('4')"]);
    let rules: Vec<String> = p.rules.iter().map(|r| r.to_string()).collect();
    assert_eq!(rules, vec!["b(y) :- a(y)."]);
    let queries: Vec<String> = p.queries.iter().map(|s| s.to_string()).collect();
    assert_eq!(queries, vec!["a(x)", "b(y)"]);
    assert_eq!(p.domain, vec!["'1'", "'2'", "'4'"]);
}

#[test]
fn domain_holds_each_fact_string_once_in_first_seen_order() {
    let p = parse_text("Schemes: r(a,b) Facts: r('z','y'). r('y','x'). Rules: Queries: r(a,b)?").ok().unwrap();
    assert_eq!(p.domain, vec!["'z'", "'y'", "'x'"]);
}

#[test]
fn rules_and_queries_keep_constants_and_variables() {
    let p = parse_text("Schemes: e(a,b) Facts: Rules: p(x,z) :- e(x,y), e(y,z). Queries: p('1',w)? e(x,x)?")
        .ok()
        .unwrap();
    assert_eq!(p.rules.len(), 1);
    assert_eq!(p.rules[0].head_predicate.to_string(), "p(x,z)");
    assert_eq!(p.rules[0].body_predicates.len(), 2);
    assert_eq!(p.rules[0].to_string(), "p(x,z) :- e(x,y),e(y,z).");
    assert_eq!(p.queries[0].parameters, vec!["'1'", "w"]);
    assert_eq!(p.queries[1].to_string(), "e(x,x)");
}

#[test]
fn missing_query_section_is_an_error_at_end() {
    let tokens = scanner(String::from("Schemes: a(x) Facts: Rules:")).ok().unwrap();
    let n = tokens.len();
    let e = parse_tokens(tokens).err().unwrap();
    assert_eq!(e.position, n - 1);
    assert_eq!(e.token.t_type, TokenType::End);
}

#[test]
fn sections_may_be_empty() {
    let p = parse_text("Schemes: Facts: Rules: Queries:").ok().unwrap();
    assert!(p.schemes.is_empty() && p.facts.is_empty() && p.rules.is_empty() && p.queries.is_empty());
}

#[test]
fn sections_come_in_order() {
    let e = parse_text("Facts: Schemes: Rules: Queries:").err().unwrap();
    assert_eq!(e.position, 0);
    assert_eq!(e.token.t_type, TokenType::Facts);
}

#[test]
fn scheme_parameters_must_be_ids() {
    let e = parse_text("Schemes: a('x') Facts: Rules: Queries: a(x)?").err().unwrap();
    assert_eq!(e.position, 4);
    assert_eq!(e.token.t_type, TokenType::String);
    assert_eq!(e.token.line, 1);
}

#[test]
fn fact_parameters_must_be_strings() {
    let e = parse_text("Schemes: a(x)\nFacts: a(x).\nRules: Queries: a(x)?").err().unwrap();
    assert_eq!(e.token.t_type, TokenType::Id);
    assert_eq!(e.token.value, "x");
    assert_eq!(e.token.line, 2);
}

#[test]
fn undefined_token_stops_the_parse() {
    let e = parse_text("Schemes: a(x) Facts: a('1') @ Rules: Queries: a(x)?").err().unwrap();
    assert_eq!(e.token.t_type, TokenType::Undefined);
    assert_eq!(e.token.value, "@");
}

#[test]
fn parser_steps_through_tokens() {
    let tokens = scanner(String::from("Schemes: a(x)")).ok().unwrap();
    let mut parser = Parser::new(tokens);
    assert_eq!(parser.token_type(), TokenType::Schemes);
    assert!(parser.match_token(TokenType::Schemes).is_ok());
    assert_eq!(parser.token_type(), TokenType::Colon);
    let err = parser.match_token(TokenType::Id).err().unwrap();
    assert_eq!(err.position, 1);
    assert_eq!(err.token.t_type, TokenType::Colon);
    parser.advance_token();
    assert_eq!(parser.token_type(), TokenType::Id);
    let e = parser.throw_error();
    assert_eq!(e.position, 2);
    assert_eq!(e.token.value, "a");
}

#[test]
fn predicate_and_rule_text() {
    let p = pred("parent", &["x", "'bob'"]);
    assert_eq!(p.to_string(), "parent(x,'bob')");
    let r = Rule { head_predicate: pred("g", &["x"]), body_predicates: vec![pred("p", &["x", "y"]), pred("q", &["y"])] };
    assert_eq!(r.to_string(), "g(x) :- p(x,y),q(y).");
    let empty = pred("z", &[]);
    assert_eq!(empty.to_string(), "z()");
}

#[test]
fn new_program_is_empty() {
    let p = DatalogProgram::new();
    assert!(p.schemes.is_empty() && p.facts.is_empty() && p.rules.is_empty() && p.queries.is_empty());
    assert!(p.domain.is_empty());
}
