use lib::database::Database;
use lib::relation::Relation;

fn strs(v: &[&str]) -> Vec<String> {
    v.iter().map(|s| String::from(*s)).collect()
}

fn people() -> Database {
    let mut db = Database::new();
    db.insert_relation(Relation::new(String::from("p"), strs(&["a", "b"])));
    db.insert_fact(String::from("p"), strs(&["'bob'", "'ann'"]));
    db.insert_fact(String::from("p"), strs(&["'ann'", "'ann'"]));
    db.insert_fact(String::from("p"), strs(&["'cy'", "'bob'"]));
    db
}

#[test]
fn facts_go_to_existing_relations_only() {
    let mut db = people();
    db.insert_fact(String::from("missing"), strs(&["'x'"]));
    assert!(db.has_relation(&String::from("p")));
    assert!(!db.has_relation(&String::from("missing")));
    assert_eq!(db.size_before(), 3);
    db.insert_fact(String::from("p"), strs(&["'bob'", "'ann'"]));
    assert_eq!(db.size_before(), 3);
}

#[test]
fn insert_relation_replaces_by_name() {
    let mut db = people();
    db.insert_relation(Relation::new(String::from("p"), strs(&["c"])));
    assert_eq!(db.size_before(), 0);
    let r = db.query_rule(String::from("p"), strs(&["v"]));
    assert!(r.tuples.is_empty());
}

#[test]
fn query_rule_selects_and_projects() {
    let mut db = people();
    let r = db.query_rule(String::from("p"), strs(&["x", "'ann'"]));
    assert_eq!(r.scheme, strs(&["x"]));
    let mut rows = r.tuples.clone();
    rows.sort();
    assert_eq!(rows, vec![strs(&["'ann'"]), strs(&["'bob'"])]);
    let same = db.query_rule(String::from("p"), strs(&["x", "x"]));
    assert_eq!(same.scheme, strs(&["x"]));
    assert_eq!(same.tuples, vec![strs(&["'ann'"])]);
    let both = db.query_rule(String::from("p"), strs(&["'cy'", "'bob'"]));
    assert!(both.scheme.is_empty());
    assert_eq!(both.tuples, vec![Vec::<String>::new()]);
}

#[test]
fn query_with_distinct_variables_gives_every_tuple() {
    let mut db = people();
    let r = db.query_rule(String::from("p"), strs(&["y", "z"]));
    assert_eq!(r.scheme, strs(&["y", "z"]));
    assert_eq!(r.tuples.len(), 3);
}

#[test]
fn query_prints_sorted_answers() {
    let mut db = people();
    let lines = db.query(String::from("p"), strs(&["x", "y"]));
    assert_eq!(lines, strs(&["p(x,y)? Yes(3)", "  x='ann', y='ann'", "  x='bob', y='ann'", "  x='cy', y='bob'"]));
    let none = db.query(String::from("p"), strs(&["'zed'", "y"]));
    assert_eq!(none, strs(&["p('zed',y)? No"]));
    let yes = db.query(String::from("p"), strs(&["'cy'", "'bob'"]));
    assert_eq!(yes, strs(&["p('cy','bob')? Yes(1)"]));
}

#[test]
fn unionize_adds_new_tuples_in_sorted_order() {
    let mut db = people();
    let mut extra = Relation::new(String::from("p"), strs(&["q", "r"]));
    extra.add_tuple(strs(&["'zz'", "'a'"]));
    extra.add_tuple(strs(&["'ann'", "'ann'"]));
    extra.add_tuple(strs(&["'al'", "'b'"]));
    let lines = db.unionize(extra);
    assert_eq!(lines, strs(&["  a='al', b='b'", "  a='zz', b='a'"]));
    assert_eq!(db.size_before(), 5);
}

#[test]
fn unionize_twice_adds_nothing_the_second_time() {
    let mut db = people();
    let mut extra = Relation::new(String::from("p"), strs(&["a", "b"]));
    extra.add_tuple(strs(&["'new'", "'one'"]));
    let again = extra.copy();
    assert_eq!(db.unionize(extra).len(), 1);
    assert!(db.unionize(again).is_empty());
    assert_eq!(db.size_before(), 4);
}

#[test]
fn sizes_and_fixpoint_check() {
    let mut db = people();
    let before = db.size_before();
    assert!(db.total_fits());
    assert!(db.check_size(before));
    db.insert_fact(String::from("p"), strs(&["'q'", "'r'"]));
    assert!(!db.check_size(before));
}

#[test]
fn query_safety() {
    let mut db = people();
    db.insert_relation(Relation::new(String::from("short"), strs(&["a", "b"])));
    db.insert_fact(String::from("short"), strs(&["'1'"]));
    assert!(db.query_is_safe(&String::from("p"), &strs(&["x", "'ann'"])));
    assert!(!db.query_is_safe(&String::from("short"), &strs(&["x", "'2'"])));
    assert!(!db.query_is_safe(&String::from("short"), &strs(&["x", "y"])));
    assert!(db.query_is_safe(&String::from("short"), &strs(&["x"])));
    assert!(!db.query_is_safe(&String::from("none"), &strs(&["x"])));
}
