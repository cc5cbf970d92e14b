use lib::interpreter::{EvalError, Interpreter};
use lib::parser::{parse_tokens, Predicate};
use lib::scanner::scanner;

const EXAMPLE: &str = "Schemes:\n  a(x)\n  b(y)\n\nFacts:\n  a('1').\n  a('2').\n  a('4').\n\nRules:\n  b(y) :- a(y).\n\nQueries:\n  a(x)?\n  b(y)?\n";

fn interpreter_for(text: &str) -> Interpreter {
    let tokens = scanner(String::from(text)).ok().unwrap();
    let program = parse_tokens(tokens).ok().unwrap();
    Interpreter::new(program)
}

fn run(text: &str) -> Result<Vec<String>, EvalError> {
    let mut i = interpreter_for(text);
    assert!(i.program_fits());
    i.run_interpreter()
}

fn strs(v: &[&str]) -> Vec<String> {
    v.iter().map(|s| String::from(*s)).collect()
}

fn pred(name: &str, params: &[&str]) -> Predicate {
    Predicate { name: String::from(name), parameters: strs(params) }
}

#[test]
fn runs_the_example_program() {
    let lines = run(EXAMPLE).ok().unwrap();
    assert_eq!(
        lines,
        strs(&[
            "Dependency Graph",
            "R0:",
            "",
            "Rule Evaluation",
            "SCC: R0",
            "b(y) :- a(y).",
            "  y='1'",
            "  y='2'",
            "  y='4'",
            "1 passes: R0",
            "",
            "Query Evaluation",
            "a(x)? Yes(3)",
            "  x='1'",
            "  x='2'",
            "  x='4'",
            "b(y)? Yes(3)",
            "  y='1'",
            "  y='2'",
            "  y='4'",
        ])
    );
}

#[test]
fn transitive_closure_reaches_a_fixpoint() {
    let text = "Schemes: e(a,b) t(a,b)\nFacts: e('1','2'). e('2','3'). e('3','4').\nRules:\n t(x,y) :- e(x,y).\n t(x,z) :- t(x,y), e(y,z).\nQueries: t('1',w)?";
    let lines = run(text).ok().unwrap();
    assert_eq!(
        lines,
        strs(&[
            "Dependency Graph",
            "R0:",
            "R1:R0,R1",
            "",
            "Rule Evaluation",
            "SCC: R0",
            "t(x,y) :- e(x,y).",
            "  a='1', b='2'",
            "  a='2', b='3'",
            "  a='3', b='4'",
            "1 passes: R0",
            "SCC: R1",
            "t(x,z) :- t(x,y),e(y,z).",
            "  a='1', b='3'",
            "  a='2', b='4'",
            "t(x,z) :- t(x,y),e(y,z).",
            "  a='1', b='4'",
            "t(x,z) :- t(x,y),e(y,z).",
            "3 passes: R1",
            "",
            "Query Evaluation",
            "t('1',w)? Yes(3)",
            "  w='2'",
            "  w='3'",
            "  w='4'",
        ])
    );
}

#[test]
fn mutually_recursive_rules_share_a_component() {
    let text = "Schemes: s(a) p(a) q(a)\nFacts: s('x').\nRules:\n p(v) :- q(v).\n q(v) :- p(v).\n p(v) :- s(v).\nQueries: q(v)?";
    let lines = run(text).ok().unwrap();
    assert_eq!(
        lines,
        strs(&[
            "Dependency Graph",
            "R0:R1",
            "R1:R0,R2",
            "R2:",
            "",
            "Rule Evaluation",
            "SCC: R2",
            "p(v) :- s(v).",
            "  a='x'",
            "1 passes: R2",
            "SCC: R0,R1",
            "p(v) :- q(v).",
            "q(v) :- p(v).",
            "  a='x'",
            "p(v) :- q(v).",
            "q(v) :- p(v).",
            "2 passes: R0,R1",
            "",
            "Query Evaluation",
            "q(v)? Yes(1)",
            "  v='x'",
        ])
    );
}

#[test]
fn evaluate_rule_joins_and_projects() {
    let text = "Schemes: e(a,b) f(c,d) g(x,y)\nFacts: e('1','2'). e('5','6'). f('2','3').\nRules:\nQueries: e(a,b)?";
    let mut i = interpreter_for(text);
    i.make_schemes();
    i.make_facts();
    let r = i
        .evaluate_rule(pred("g", &["z", "x"]), vec![pred("e", &["x", "y"]), pred("f", &["y", "z"])])
        .ok()
        .unwrap();
    assert_eq!(r.name, "g");
    assert_eq!(r.scheme, strs(&["z", "x"]));
    assert_eq!(r.tuples, vec![strs(&["'3'", "'1'"])]);
}

#[test]
fn evaluate_rule_reports_each_error() {
    let text = "Schemes: e(a,b)\nFacts: e('1','2').\nRules:\nQueries: e(a,b)?";
    let mut i = interpreter_for(text);
    i.make_schemes();
    i.make_facts();
    let missing = i.evaluate_rule(pred("g", &["x"]), vec![pred("nope", &["x"])]);
    assert_eq!(missing.err(), Some(EvalError::MissingRelation));
    let unbound = i.evaluate_rule(pred("g", &["w"]), vec![pred("e", &["x", "y"])]);
    assert_eq!(unbound.err(), Some(EvalError::UnboundHeadVariable));
    let rename = i.evaluate_rule(pred("g", &["x"]), vec![pred("e", &["x", "y"]), pred("e", &["x", "'2'"])]);
    assert_eq!(rename.err(), Some(EvalError::RenameOutOfRange));
    let first_may_repeat = i.evaluate_rule(pred("g", &["x"]), vec![pred("e", &["x", "x"])]);
    assert!(first_may_repeat.ok().unwrap().tuples.is_empty());
}

#[test]
fn short_facts_make_queries_fail() {
    let text = "Schemes: e(a,b)\nFacts: e('1').\nRules:\nQueries: e(a,b)?";
    assert_eq!(run(text).err(), Some(EvalError::ShortTuple));
}

#[test]
fn a_rule_head_without_relation_fails() {
    let text = "Schemes: e(a)\nFacts: e('1').\nRules: h(a) :- e(a).\nQueries: e(a)?";
    assert_eq!(run(text).err(), Some(EvalError::MissingRelation));
}

#[test]
fn a_query_on_a_missing_relation_fails() {
    let text = "Schemes: e(a)\nFacts: e('1').\nRules:\nQueries: zz(a)?";
    assert_eq!(run(text).err(), Some(EvalError::MissingRelation));
}

#[test]
fn steps_one_by_one() {
    let mut i = interpreter_for(EXAMPLE);
    i.make_schemes();
    i.make_facts();
    let (graph, comps) = i.generate_graph();
    assert_eq!(graph, strs(&["R0:", ""]));
    assert_eq!(comps, vec![vec![0u32]]);
    let eval = i.evaluate_rules(comps).ok().unwrap();
    assert_eq!(eval, strs(&["SCC: R0", "b(y) :- a(y).", "  y='1'", "  y='2'", "  y='4'", "1 passes: R0", ""]));
    let answers = i.generate_queries().ok().unwrap();
    assert_eq!(answers[0], "a(x)? Yes(3)");
    assert_eq!(answers.len(), 8);
}

#[test]
fn facts_for_unknown_relations_are_dropped() {
    let text = "Schemes: a(x)\nFacts: a('1'). b('2'). a('1').\nRules:\nQueries: a(x)?";
    let lines = run(text).ok().unwrap();
    let start = lines.iter().position(|l| l == "Query Evaluation").unwrap();
    assert_eq!(lines[start + 1..].to_vec(), strs(&["a(x)? Yes(1)", "  x='1'"]));
}

#[test]
fn program_fits_rejects_an_empty_body() {
    let mut i = interpreter_for("Schemes: a(x) Facts: Rules: Queries: a(x)?");
    assert!(i.program_fits());
    let tokens = scanner(String::from("Schemes: a(x) Facts: Rules: Queries: a(x)?")).ok().unwrap();
    let mut program = parse_tokens(tokens).ok().unwrap();
    program.rules.push(lib::parser::Rule { head_predicate: pred("a", &["x"]), body_predicates: vec![] });
    i = Interpreter::new(program);
    assert!(!i.program_fits());
}

#[test]
fn evaluating_again_adds_nothing() {
    let text = "Schemes: e(a,b) t(a,b) r(a)\nFacts: e('1','2'). e('2','3').\nRules:\n t(x,y) :- e(x,y).\n t(x,z) :- t(x,y), e(y,z).\n r(x) :- t(x,y).\nQueries: t(a,b)? r(a)?";
    let mut i = interpreter_for(text);
    assert!(i.program_fits());
    i.make_schemes();
    i.make_facts();
    let (_, comps) = i.generate_graph();
    let first = i.evaluate_rules(comps.clone()).ok().unwrap();
    assert!(first.iter().any(|l| l.starts_with("  ")));
    let second = i.evaluate_rules(comps).ok().unwrap();
    assert!(second.iter().all(|l| !l.starts_with("  ")));
    assert!(second.iter().any(|l| l == "1 passes: R1"));
    let answers = i.generate_queries().ok().unwrap();
    assert_eq!(answers[0], "t(a,b)? Yes(3)");
    assert_eq!(answers[4], "r(a)? Yes(2)");
}

#[test]
fn components_hold_each_rule_once() {
    let text = "Schemes: a(x) b(x) c(x) d(x)\nFacts: a('1').\nRules:\n b(x) :- a(x).\n c(x) :- b(x), d(x).\n d(x) :- c(x).\n a(x) :- a(x).\n b(x) :- c(x).\nQueries: a(x)?";
    let mut i = interpreter_for(text);
    let (_, comps) = i.generate_graph();
    let mut all: Vec<u32> = comps.iter().flatten().cloned().collect();
    all.sort();
    assert_eq!(all, vec![0, 1, 2, 3, 4]);
    assert!(comps.iter().all(|c| !c.is_empty()));
}

#[test]
fn a_self_dependent_single_rule_loops_to_its_fixpoint() {
    let text = "Schemes: n(x) m(x)\nFacts: n('1'). n('2').\nRules:\n m(x) :- n(x).\n n(x) :- n(x).\nQueries: m(x)?";
    let lines = run(text).ok().unwrap();
    assert_eq!(
        lines,
        strs(&[
            "Dependency Graph",
            "R0:R1",
            "R1:R1",
            "",
            "Rule Evaluation",
            "SCC: R1",
            "n(x) :- n(x).",
            "1 passes: R1",
            "SCC: R0",
            "m(x) :- n(x).",
            "  x='1'",
            "  x='2'",
            "1 passes: R0",
            "",
            "Query Evaluation",
            "m(x)? Yes(2)",
            "  x='1'",
            "  x='2'",
        ])
    );
}

#[test]
fn running_twice_starts_again_from_the_schemes() {
    let mut i = interpreter_for(EXAMPLE);
    assert!(i.program_fits());
    let first = i.run_interpreter().ok().unwrap();
    let second = i.run_interpreter().ok().unwrap();
    assert_eq!(first, second);
}
