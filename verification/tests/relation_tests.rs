use lib::relation::Relation;

fn strs(v: &[&str]) -> Vec<String> {
    v.iter().map(|s| String::from(*s)).collect()
}

fn rel(name: &str, scheme: &[&str], rows: &[&[&str]]) -> Relation {
    let mut r = Relation::new(String::from(name), strs(scheme));
    for row in rows {
        r.add_tuple(strs(row));
    }
    r
}

fn sorted_rows(r: &Relation) -> Vec<Vec<String>> {
    let mut rows = r.tuples.clone();
    rows.sort();
    rows
}

#[test]
fn new_relation_is_empty() {
    let r = Relation::new(String::from("r"), strs(&["a", "b"]));
    assert_eq!(r.name, "r");
    assert_eq!(r.scheme, strs(&["a", "b"]));
    assert!(r.tuples.is_empty());
}

#[test]
fn add_tuple_keeps_each_tuple_once() {
    let mut r = Relation::new(String::from("r"), strs(&["a"]));
    assert!(r.add_tuple(strs(&["'1'"])));
    assert!(r.add_tuple(strs(&["'2'"])));
    assert!(!r.add_tuple(strs(&["'1'"])));
    assert_eq!(r.tuples, vec![strs(&["'1'"]), strs(&["'2'"])]);
}

#[test]
fn rename_changes_one_column_only() {
    let mut r = rel("r", &["a", "b"], &[&["'1'", "'2'"]]);
    let renamed = r.rename(1, String::from("c"));
    assert_eq!(renamed.scheme, strs(&["a", "c"]));
    assert_eq!(renamed.tuples, r.tuples);
    assert_eq!(renamed.name, "r");
    assert_eq!(r.scheme, strs(&["a", "b"]));
}

#[test]
fn select_by_value_keeps_matching_tuples() {
    let r = rel("r", &["a", "b"], &[&["'1'", "'x'"], &["'2'", "'y'"], &["'3'", "'x'"]]);
    let s = r.select_by_value(1, "'x'");
    assert_eq!(s.tuples, vec![strs(&["'1'", "'x'"]), strs(&["'3'", "'x'"])]);
    assert_eq!(s.scheme, r.scheme);
    let none = r.select_by_value(0, "'9'");
    assert!(none.tuples.is_empty());
}

#[test]
fn select_by_matching_indices_keeps_equal_columns() {
    let r = rel("r", &["a", "b"], &[&["'1'", "'1'"], &["'1'", "'2'"], &["'3'", "'3'"]]);
    let s = r.select_by_matching_indices(0, 1);
    assert_eq!(s.tuples, vec![strs(&["'1'", "'1'"]), strs(&["'3'", "'3'"])]);
}

#[test]
fn project_picks_and_merges() {
    let r = rel("r", &["a", "b", "c"], &[&["'1'", "'2'", "'3'"], &["'1'", "'5'", "'3'"]]);
    let p = r.project(&vec![2, 0]);
    assert_eq!(p.scheme, strs(&["c", "a"]));
    assert_eq!(p.tuples, vec![strs(&["'3'", "'1'"])]);
    let dup = r.project(&vec![1, 1]);
    assert_eq!(dup.scheme, strs(&["b", "b"]));
    assert_eq!(dup.tuples, vec![strs(&["'2'", "'2'"]), strs(&["'5'", "'5'"])]);
    let none = r.project(&vec![]);
    assert_eq!(none.tuples, vec![Vec::<String>::new()]);
}

#[test]
fn join_on_shared_column() {
    let l = rel("l", &["x", "y"], &[&["'1'", "'2'"], &["'3'", "'4'"]]);
    let r = rel("r", &["y", "z"], &[&["'2'", "'5'"], &["'2'", "'6'"], &["'9'", "'7'"]]);
    let j = l.join(&r);
    assert_eq!(j.name, "l and r");
    assert_eq!(j.scheme, strs(&["x", "y", "z"]));
    assert_eq!(sorted_rows(&j), vec![strs(&["'1'", "'2'", "'5'"]), strs(&["'1'", "'2'", "'6'"])]);
}

#[test]
fn join_without_shared_columns_is_the_product() {
    let l = rel("l", &["a"], &[&["'1'"], &["'2'"]]);
    let r = rel("r", &["b"], &[&["'x'"], &["'y'"]]);
    let j = l.join(&r);
    assert_eq!(j.scheme, strs(&["a", "b"]));
    assert_eq!(
        sorted_rows(&j),
        vec![strs(&["'1'", "'x'"]), strs(&["'1'", "'y'"]), strs(&["'2'", "'x'"]), strs(&["'2'", "'y'"])]
    );
}

#[test]
fn join_with_same_scheme_is_the_intersection() {
    let l = rel("l", &["a", "b"], &[&["'1'", "'2'"], &["'3'", "'4'"]]);
    let r = rel("r", &["a", "b"], &[&["'3'", "'4'"], &["'5'", "'6'"]]);
    let j = l.join(&r);
    assert_eq!(j.scheme, strs(&["a", "b"]));
    assert_eq!(j.tuples, vec![strs(&["'3'", "'4'"])]);
}

#[test]
fn join_with_empty_is_empty() {
    let l = rel("l", &["a"], &[&["'1'"]]);
    let r = rel("r", &["a", "b"], &[]);
    let j = l.join(&r);
    assert_eq!(j.scheme, strs(&["a", "b"]));
    assert!(j.tuples.is_empty());
}

#[test]
fn joinable_and_join_tuple() {
    let l = rel("l", &[], &[]);
    let ls = strs(&["x", "y"]);
    let rs = strs(&["y", "z"]);
    assert!(l.joinable(&ls, &rs, &strs(&["'1'", "'2'"]), &strs(&["'2'", "'3'"])));
    assert!(!l.joinable(&ls, &rs, &strs(&["'1'", "'2'"]), &strs(&["'4'", "'3'"])));
    assert_eq!(l.join_tuple(&ls, &rs, &strs(&["'1'", "'2'"]), &strs(&["'2'", "'3'"])), strs(&["'1'", "'2'", "'3'"]));
}

#[test]
fn query_verification_counts_answers() {
    let r = rel("r", &["a"], &[&["'1'"], &["'2'"]]);
    assert_eq!(r.query_verification(String::from("r"), strs(&["x"])), "r(x)? Yes(2)");
    let e = rel("e", &["a", "b"], &[]);
    assert_eq!(e.query_verification(String::from("e"), strs(&["'1'", "y"])), "e('1',y)? No");
}

#[test]
fn to_string_list_formats_each_tuple() {
    let mut r = rel("r", &["a", "b"], &[&["'1'", "'2'"], &["'3'", "'4'"]]);
    assert_eq!(r.to_string_list(), strs(&["a='1', b='2'", "a='3', b='4'"]));
    let mut z = rel("z", &[], &[&[]]);
    assert_eq!(z.to_string_list(), strs(&[""]));
}
