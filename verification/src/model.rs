//! What the evaluation computes: it only adds tuples, its components are the strongly
//! connected components of the dependency graph in an order that puts dependencies first, and
//! a successful evaluation ends at the least set of relations, above the starting ones, that
//! every rule leaves unchanged.

use vstd::prelude::*;
use crate::database::{
    answers_query, binds_variables, first_from, is_constant, law_query_answers, law_union_idempotent, law_union_lines_none, lemma_first_from, lemma_query_arity, lemma_query_finite,
    passes_before, query_result, var_positions,
};
use crate::graph::{
    components, forest_from, has_node, in_some, increasing, lemma_components_partition, lemma_components_within,
    lemma_forest_list,
};
use crate::interpreter::{
    Db, EvalError, all_rules_fit, body_outcome, dep_edges, dep_set, dependency_adj, depends_on,
    fixpoint_outcome, head_positions, lemma_params_count, lemma_sorted_ids, params_count, pass_outcome, query_outcome, renamed_outcome,
    rule_components, rule_fits,
    rule_ids, rule_outcome, rule_step, rules_outcome, scc_first, scc_outcome, sorted_ids,
};
use crate::parser::{PredView, RuleView};
use crate::relation::{
    RelView, Tup, arity_ok, entries_named, entry_named, join_scheme, join_set, join_tuple_val, joinable_val,
    law_join_by_names, lemma_join_arity, lemma_join_finite, pick,
};
use crate::scc::{
    later, lemma_components_scc, lemma_forest_orders, lemma_forest_within, lemma_later_antisym, lemma_reaches_edge,
    lemma_reverse_reach, lemma_reversed_scc, lemma_scc, reaches, reversed, scc_of,
};
use crate::text::{lemma_sorted_exists, sorted_by, strict_total};

verus! {

/// Every relation holds finitely many tuples.
pub open spec fn db_finite(db: Db) -> bool {
    forall|k: Seq<char>| db.contains_key(k) ==> #[trigger] db[k].tuples.finite()
}

/// `d2` holds the relations of `d1`, under the same names and with the same columns, and at
/// least their tuples.
pub open spec fn grows(d1: Db, d2: Db) -> bool {
    &&& d2.dom() == d1.dom()
    &&& forall|k: Seq<char>|
        #![trigger d1[k], d2[k]]
        d1.contains_key(k) ==> d2[k].name == d1[k].name && d2[k].scheme == d1[k].scheme && d1[k].tuples.subset_of(
            d2[k].tuples,
        )
}

proof fn lemma_grows_refl(d: Db)
    ensures
        grows(d, d),
{
}

proof fn lemma_grows_trans(d1: Db, d2: Db, d3: Db)
    requires
        grows(d1, d2),
        grows(d2, d3),
    ensures
        grows(d1, d3),
{
    assert forall|k: Seq<char>| #![trigger d1[k], d3[k]] d1.contains_key(k) implies d3[k].name == d1[k].name
        && d3[k].scheme == d1[k].scheme && d1[k].tuples.subset_of(d3[k].tuples) by {
        assert(d2.contains_key(k));
        assert(d2[k].name == d1[k].name);
    }
}

proof fn lemma_body_finite(db: Db, body: Seq<PredView>, n: int)
    requires
        db_finite(db),
        body_outcome(db, body, n) is Ok,
    ensures
        body_outcome(db, body, n)->Ok_0.tuples.finite(),
    decreases n,
{
    if n <= 1 {
        lemma_query_finite(db[body[0].0], body[0].1);
    } else {
        lemma_body_finite(db, body, n - 1);
        let p = body[n - 1];
        lemma_query_finite(db[p.0], p.1);
        let acc = body_outcome(db, body, n - 1)->Ok_0;
        let t = renamed_outcome(db, p)->Ok_0;
        lemma_join_finite(acc.scheme, t.scheme, acc.tuples, t.tuples);
    }
}

proof fn lemma_rule_outcome_finite(db: Db, head: PredView, body: Seq<PredView>)
    requires
        db_finite(db),
        rule_outcome(db, head, body) is Ok,
    ensures
        rule_outcome(db, head, body)->Ok_0.tuples.finite(),
{
    lemma_body_finite(db, body, body.len() as int);
    let r = body_outcome(db, body, body.len() as int)->Ok_0;
    r.tuples.lemma_map_finite(|t: Tup| pick(t, head_positions(r.scheme, head.1)));
}

/// What one rule step does to the relations: they grow, stay finite, and stay the same when
/// no tuple is new.
proof fn lemma_rule_step(db: Db, r: RuleView)
    requires
        rule_step(db, r) is Ok,
    ensures
        grows(db, rule_step(db, r)->Ok_0.0),
        db_finite(db) ==> db_finite(rule_step(db, r)->Ok_0.0),
        db_finite(db) && rule_step(db, r)->Ok_0.2 == 0 ==> rule_step(db, r)->Ok_0.0 == db,
{
    let rel = rule_outcome(db, r.0, r.1)->Ok_0;
    let old = db[rel.name];
    let d = rule_step(db, r)->Ok_0.0;
    assert(d.dom() =~= db.dom());
    if db_finite(db) {
        lemma_rule_outcome_finite(db, r.0, r.1);
        assert(old.tuples.finite());
        assert forall|k: Seq<char>| d.contains_key(k) implies #[trigger] d[k].tuples.finite() by {
            if k == rel.name {
                assert(d[k].tuples == old.tuples.union(rel.tuples));
            }
        }
        if rule_step(db, r)->Ok_0.2 == 0 {
            law_union_lines_none(rel.tuples, old.scheme, old.tuples);
            assert(old.tuples.union(rel.tuples) =~= old.tuples);
            assert(RelView { tuples: old.tuples.union(rel.tuples), ..old } == old);
            assert(d =~= db);
        }
    }
}

proof fn lemma_pass(db: Db, rules: Seq<RuleView>, ids: Seq<u32>)
    requires
        pass_outcome(db, rules, ids) is Ok,
    ensures
        grows(db, pass_outcome(db, rules, ids)->Ok_0.0),
        db_finite(db) ==> db_finite(pass_outcome(db, rules, ids)->Ok_0.0),
        db_finite(db) && pass_outcome(db, rules, ids)->Ok_0.2 == 0 ==> pass_outcome(db, rules, ids)->Ok_0.0 == db,
    decreases ids.len(),
{
    if ids.len() == 0 {
        lemma_grows_refl(db);
    } else {
        lemma_pass(db, rules, ids.drop_last());
        let d1 = pass_outcome(db, rules, ids.drop_last())->Ok_0.0;
        lemma_rule_step(d1, rules[ids.last() as int]);
        lemma_grows_trans(db, d1, pass_outcome(db, rules, ids)->Ok_0.0);
    }
}

proof fn lemma_fixpoint_grows(db: Db, total: nat, rules: Seq<RuleView>, ids: Seq<u32>)
    requires
        fixpoint_outcome(db, total, rules, ids) is Ok,
    ensures
        grows(db, fixpoint_outcome(db, total, rules, ids)->Ok_0.0),
        db_finite(db) ==> db_finite(fixpoint_outcome(db, total, rules, ids)->Ok_0.0),
    decreases (u32::MAX as int) - (total as int),
{
    lemma_pass(db, rules, ids);
    let o = pass_outcome(db, rules, ids)->Ok_0;
    if o.2 != 0 {
        lemma_fixpoint_grows(o.0, total + o.2, rules, ids);
        lemma_grows_trans(db, o.0, fixpoint_outcome(db, total, rules, ids)->Ok_0.0);
    }
}

/// Law: a component evaluated until a pass adds nothing ends closed under its rules: one more
/// pass over them, on the relations it ends with, derives no new tuple and changes nothing.
pub proof fn law_fixpoint_closed(db: Db, total: nat, rules: Seq<RuleView>, ids: Seq<u32>)
    requires
        db_finite(db),
        fixpoint_outcome(db, total, rules, ids) is Ok,
    ensures
        pass_outcome(fixpoint_outcome(db, total, rules, ids)->Ok_0.0, rules, ids) is Ok,
        pass_outcome(fixpoint_outcome(db, total, rules, ids)->Ok_0.0, rules, ids)->Ok_0.0 == fixpoint_outcome(
            db,
            total,
            rules,
            ids,
        )->Ok_0.0,
        pass_outcome(fixpoint_outcome(db, total, rules, ids)->Ok_0.0, rules, ids)->Ok_0.2 == 0,
    decreases (u32::MAX as int) - (total as int),
{
    lemma_pass(db, rules, ids);
    let o = pass_outcome(db, rules, ids)->Ok_0;
    if o.2 != 0 {
        law_fixpoint_closed(o.0, total + o.2, rules, ids);
    }
}

/// Law: evaluating the components in order only adds tuples: every relation keeps its name,
/// its columns and its tuples, and no relation appears or disappears.
pub proof fn law_evaluation_grows(db: Db, total: nat, rules: Seq<RuleView>, sccs: Seq<Set<u32>>)
    requires
        rules_outcome(db, total, rules, sccs) is Ok,
    ensures
        grows(db, rules_outcome(db, total, rules, sccs)->Ok_0.0),
    decreases sccs.len(),
{
    if sccs.len() == 0 {
        lemma_grows_refl(db);
    } else {
        law_evaluation_grows(db, total, rules, sccs.drop_last());
        let o = rules_outcome(db, total, rules, sccs.drop_last())->Ok_0;
        let scc = sccs.last();
        let first = scc_first(scc);
        let dependent = dependency_adj(rules, false)[first].contains(first);
        if scc.len() == 1 && !dependent {
            lemma_rule_step(o.0, rules[first as int]);
        } else if scc.len() > 1 || dependent {
            lemma_fixpoint_grows(o.0, o.2, rules, sorted_ids(scc));
        } else {
            lemma_grows_refl(o.0);
        }
        lemma_grows_trans(db, o.0, rules_outcome(db, total, rules, sccs)->Ok_0.0);
    }
}

proof fn lemma_body_same(d1: Db, d2: Db, body: Seq<PredView>, n: int)
    requires
        1 <= n <= body.len(),
        forall|i: int|
            0 <= i < n ==> (d1.contains_key(#[trigger] body[i].0) == d2.contains_key(body[i].0)) && (d1.contains_key(
                body[i].0,
            ) ==> d1[body[i].0] == d2[body[i].0]),
    ensures
        body_outcome(d1, body, n) == body_outcome(d2, body, n),
    decreases n,
{
    if n > 1 {
        lemma_body_same(d1, d2, body, n - 1);
        assert(d1.contains_key(body[n - 1].0) == d2.contains_key(body[n - 1].0));
    } else {
        assert(d1.contains_key(body[0].0) == d2.contains_key(body[0].0));
    }
}

/// Law: a rule none of whose body predicates names its own head relation is closed after one
/// evaluation: evaluating it again adds nothing and changes nothing.
pub proof fn law_rule_once(db: Db, r: RuleView)
    requires
        db_finite(db),
        r.1.len() >= 1,
        forall|b: int| 0 <= b < r.1.len() ==> (#[trigger] r.1[b]).0 != r.0.0,
        rule_step(db, r) is Ok,
    ensures
        rule_step(rule_step(db, r)->Ok_0.0, r) is Ok,
        rule_step(rule_step(db, r)->Ok_0.0, r)->Ok_0.0 == rule_step(db, r)->Ok_0.0,
        rule_step(rule_step(db, r)->Ok_0.0, r)->Ok_0.2 == 0,
{
    let rel = rule_outcome(db, r.0, r.1)->Ok_0;
    let d = rule_step(db, r)->Ok_0.0;
    assert forall|i: int| 0 <= i < r.1.len() implies (db.contains_key(#[trigger] r.1[i].0) == d.contains_key(r.1[i].0))
        && (db.contains_key(r.1[i].0) ==> db[r.1[i].0] == d[r.1[i].0]) by {
        assert(r.1[i].0 != rel.name);
    }
    lemma_body_same(db, d, r.1, r.1.len() as int);
    assert(rule_outcome(d, r.0, r.1) == rule_outcome(db, r.0, r.1));
    lemma_rule_outcome_finite(db, r.0, r.1);
    let old = db[rel.name];
    law_union_idempotent(rel.tuples, old.scheme, old.tuples);
    lemma_rule_step(db, r);
    lemma_rule_step(d, r);
}

/// Law: the components partition the rules: every rule lies in exactly one component, each
/// component holds a rule, and they hold nothing but rules.
pub proof fn law_components_partition(rules: Seq<RuleView>)
    requires
        rules.len() <= u32::MAX as nat + 1,
    ensures
        forall|x: u32| (x as int) < rules.len() ==> #[trigger] in_some(rule_components(rules), x),
        forall|i: int, j: int, x: u32|
            0 <= i < j < rule_components(rules).len() && #[trigger] rule_components(rules)[i].contains(x)
                ==> !#[trigger] rule_components(rules)[j].contains(x),
        forall|i: int, x: u32|
            0 <= i < rule_components(rules).len() && #[trigger] rule_components(rules)[i].contains(x) ==> (x as int)
                < rules.len(),
        forall|i: int| 0 <= i < rule_components(rules).len() ==> has_node(#[trigger] rule_components(rules)[i]),
{
    let n = rules.len();
    let ids = rule_ids(n);
    let fwd = dependency_adj(rules, false);
    let rev = dependency_adj(rules, true);
    assert forall|x: u32| (x as int) < n <==> ids.to_set().contains(x) by {
        if (x as int) < n {
            assert(ids[x as int] == x);
        }
        if ids.to_set().contains(x) {
            let m = choose|m: int| 0 <= m < ids.len() && ids[m] == x;
        }
    }
    assert(fwd.dom() =~= ids.to_set());
    assert(rev.dom() =~= ids.to_set());
    lemma_forest_list(rev, ids, 0, Set::empty());
    let order = forest_from(rev, ids, 0, Set::empty()).1;
    assert forall|x: u32| (x as int) < n implies order.contains(x) by {
        assert(ids[x as int] == x);
        assert(rev.contains_key(ids[x as int]));
        assert(order.to_set().contains(x));
    }
    lemma_components_partition(fwd, order, Set::empty());
    lemma_components_within(fwd, order, Set::empty(), Set::empty());
    assert forall|x: u32| (x as int) < n implies #[trigger] in_some(rule_components(rules), x) by {
        assert(order.contains(x) && fwd.contains_key(x));
    }
}

/// Every finite set of rule numbers can be listed in increasing order.
pub proof fn lemma_sorted_ids_finite(s: Set<u32>)
    requires
        s.finite(),
    ensures
        increasing(sorted_ids(s)),
        sorted_ids(s).to_set() == s,
{
    let lt = |a: u32, b: u32| a < b;
    assert(strict_total(lt));
    lemma_sorted_exists(s, lt);
    let q = choose|q: Seq<u32>| sorted_by(q, lt) && q.no_duplicates() && #[trigger] q.to_set() == s;
    assert(increasing(q)) by {
        assert forall|i: int, j: int| 0 <= i < j < q.len() implies q[i] < q[j] by {
            assert(!lt(q[j], q[i]));
            assert(q[i] != q[j]);
        }
    }
    lemma_sorted_ids(s, q);
}

/// Law: the dependency graph lists, for each rule, the rules it depends on (reversed: the
/// rules that depend on it), each once, in increasing order.
pub proof fn law_dependency_edges(rules: Seq<RuleView>, k: u32, reverse: bool)
    requires
        rules.len() <= u32::MAX as nat + 1,
    ensures
        increasing(dep_edges(rules, k, reverse)),
        forall|j: u32|
            #[trigger] dep_edges(rules, k, reverse).contains(j) <==> (j as int) < rules.len() && if reverse {
                depends_on(rules, j as int, k as int)
            } else {
                depends_on(rules, k as int, j as int)
            },
{
    let n = rules.len();
    let ids = rule_ids(n);
    let ds = dep_set(rules, k, reverse);
    assert(ds.subset_of(ids.to_set())) by {
        assert forall|x: u32| ds.contains(x) implies ids.to_set().contains(x) by {
            assert(ids[x as int] == x);
        }
    }
    vstd::set_lib::lemma_set_subset_finite(ids.to_set(), ds);
    lemma_sorted_ids_finite(ds);
    assert forall|j: u32| #[trigger] dep_edges(rules, k, reverse).contains(j) <==> ds.contains(j) by {
        assert(dep_edges(rules, k, reverse).to_set().contains(j) == ds.contains(j));
    }
}

/// Law: the components are the strongly connected components of the dependency graph (the
/// component of rule `x` holds exactly the rules that `x` depends on, directly or not, and
/// that depend on `x`), and a component comes after every component one of its rules depends
/// on.
pub proof fn law_components_strongly_connected(rules: Seq<RuleView>)
    requires
        rules.len() <= u32::MAX as nat + 1,
    ensures
        forall|i: int, x: u32|
            0 <= i < rule_components(rules).len() && #[trigger] rule_components(rules)[i].contains(x) ==> rule_components(
                rules,
            )[i] == scc_of(dependency_adj(rules, false), x),
        forall|i: int, j: int, a: u32, b: u32|
            0 <= i < rule_components(rules).len() && 0 <= j < rule_components(rules).len() && i != j
                && #[trigger] rule_components(rules)[i].contains(a) && #[trigger] rule_components(rules)[j].contains(b)
                && depends_on(rules, a as int, b as int) ==> j < i,
{
    let n = rules.len();
    let ids = rule_ids(n);
    let g = dependency_adj(rules, false);
    let r = dependency_adj(rules, true);
    let e = Set::<u32>::empty();
    assert forall|x: u32| (x as int) < n <==> ids.to_set().contains(x) by {
        if (x as int) < n {
            assert(ids[x as int] == x);
        }
        if ids.to_set().contains(x) {
            let m = choose|m: int| 0 <= m < ids.len() && ids[m] == x;
        }
    }
    assert(g.dom() =~= ids.to_set());
    assert(r.dom() =~= ids.to_set());
    assert forall|a: u32, b: u32| g.contains_key(a) && g.contains_key(b) implies (g[a].contains(b) <==> r[b].contains(a)) by {
        law_dependency_edges(rules, a, false);
        law_dependency_edges(rules, b, true);
        assert(g[a] == dep_edges(rules, a, false) && r[b] == dep_edges(rules, b, true));
    }
    assert(reversed(g, r));
    assert forall|z: u32| r.contains_key(z) implies ids.contains(z) by {
        assert(ids[z as int] == z);
    }
    lemma_forest_list(r, ids, 0, e);
    lemma_forest_within(r, ids, 0, e);
    let l = forest_from(r, ids, 0, e).1;
    assert forall|j: int| 0 <= j < l.len() implies g.contains_key(#[trigger] l[j]) by {
        assert(l.to_set().contains(l[j]));
    }
    assert forall|y: u32, x: u32|
        #![trigger scc_of(r, y), scc_of(r, x)]
        reaches(r, e, y, x) && !reaches(r, e, x, y) implies later(l, scc_of(r, y), scc_of(r, x)) by {
        lemma_forest_orders(r, ids, y, x);
    }
    assert(l.take(l.len() as int) =~= l);
    lemma_components_scc(g, r, l, l.len() as int, e);
    let cs = rule_components(rules);
    law_components_partition(rules);
    assert forall|i: int, j: int, a: u32, b: u32|
        0 <= i < cs.len() && 0 <= j < cs.len() && i != j && #[trigger] cs[i].contains(a) && #[trigger] cs[j].contains(b)
            && depends_on(rules, a as int, b as int) implies j < i by {
        assert((a as int) < n && (b as int) < n);
        law_dependency_edges(rules, a, false);
        assert(g[a].contains(b));
        assert(cs[i] == scc_of(g, a) && cs[j] == scc_of(g, b));
        lemma_scc(g, a);
        lemma_scc(g, b);
        if reaches(g, e, b, a) {
            lemma_reaches_edge(g, e, a, b);
            assert(scc_of(g, a).contains(b));
            if i < j {
                assert(!cs[j].contains(b));
            } else {
                assert(!cs[i].contains(a));
            }
        } else {
            assert(r[b].contains(a));
            lemma_reaches_edge(r, e, b, a);
            if reaches(r, e, a, b) {
                lemma_reversed_scc(g, r, a);
                lemma_reverse_reach(r, g, a, b);
            }
            lemma_forest_orders(r, ids, b, a);
            lemma_reversed_scc(g, r, a);
            lemma_reversed_scc(g, r, b);
            assert(later(l, cs[j], cs[i]));
            if i < j {
                assert(later(l, cs[i], cs[j]));
                lemma_later_antisym(l, cs[i], cs[j]);
            }
        }
    }
}

/// Evaluating the rule `r` once more on `d` derives nothing new and changes nothing.
pub open spec fn closed_under(d: Db, r: RuleView) -> bool {
    &&& rule_step(d, r) is Ok
    &&& rule_step(d, r)->Ok_0.0 == d
    &&& rule_step(d, r)->Ok_0.2 == 0
}

/// `d1` and `d2` hold the same relation under the name `k`, or neither holds one.
pub open spec fn same_at(d1: Db, d2: Db, k: Seq<char>) -> bool {
    &&& d1.contains_key(k) == d2.contains_key(k)
    &&& d1.contains_key(k) ==> d1[k] == d2[k]
}

proof fn lemma_rule_step_frame(d: Db, r: RuleView)
    requires
        rule_step(d, r) is Ok,
    ensures
        forall|k: Seq<char>| k != r.0.0 ==> #[trigger] same_at(d, rule_step(d, r)->Ok_0.0, k),
{
}

proof fn lemma_pass_frame(d: Db, rules: Seq<RuleView>, ids: Seq<u32>)
    requires
        pass_outcome(d, rules, ids) is Ok,
    ensures
        forall|k: Seq<char>|
            (forall|m: int| 0 <= m < ids.len() ==> rules[#[trigger] ids[m] as int].0.0 != k) ==> #[trigger] same_at(
                d,
                pass_outcome(d, rules, ids)->Ok_0.0,
                k,
            ),
    decreases ids.len(),
{
    if ids.len() > 0 {
        let ids1 = ids.drop_last();
        lemma_pass_frame(d, rules, ids1);
        let d1 = pass_outcome(d, rules, ids1)->Ok_0.0;
        lemma_rule_step_frame(d1, rules[ids.last() as int]);
        assert forall|k: Seq<char>|
            (forall|m: int| 0 <= m < ids.len() ==> rules[#[trigger] ids[m] as int].0.0 != k) implies #[trigger] same_at(
            d,
            pass_outcome(d, rules, ids)->Ok_0.0,
            k,
        ) by {
            assert forall|m: int| 0 <= m < ids1.len() implies rules[#[trigger] ids1[m] as int].0.0 != k by {
                assert(ids1[m] == ids[m]);
            }
            assert(rules[ids[ids.len() - 1] as int].0.0 != k);
            assert(same_at(d, d1, k));
            assert(same_at(d1, pass_outcome(d, rules, ids)->Ok_0.0, k));
        }
    }
}

proof fn lemma_fixpoint_frame(d: Db, total: nat, rules: Seq<RuleView>, ids: Seq<u32>)
    requires
        fixpoint_outcome(d, total, rules, ids) is Ok,
    ensures
        forall|k: Seq<char>|
            (forall|m: int| 0 <= m < ids.len() ==> rules[#[trigger] ids[m] as int].0.0 != k) ==> #[trigger] same_at(
                d,
                fixpoint_outcome(d, total, rules, ids)->Ok_0.0,
                k,
            ),
    decreases (u32::MAX as int) - (total as int),
{
    lemma_pass_frame(d, rules, ids);
    let o = pass_outcome(d, rules, ids)->Ok_0;
    if o.2 != 0 {
        lemma_fixpoint_frame(o.0, total + o.2, rules, ids);
        assert forall|k: Seq<char>|
            (forall|m: int| 0 <= m < ids.len() ==> rules[#[trigger] ids[m] as int].0.0 != k) implies #[trigger] same_at(
            d,
            fixpoint_outcome(d, total, rules, ids)->Ok_0.0,
            k,
        ) by {
            assert(same_at(d, o.0, k));
            assert(same_at(o.0, fixpoint_outcome(o.0, total + o.2, rules, ids)->Ok_0.0, k));
        }
    }
}

proof fn lemma_scc_frame(d: Db, total: nat, rules: Seq<RuleView>, c: Set<u32>)
    requires
        c.finite(),
        scc_outcome(d, total, rules, c) is Ok,
    ensures
        forall|k: Seq<char>|
            (forall|q: u32| c.contains(q) ==> rules[q as int].0.0 != k) ==> #[trigger] same_at(
                d,
                scc_outcome(d, total, rules, c)->Ok_0.0,
                k,
            ),
{
    let first = scc_first(c);
    let dependent = dependency_adj(rules, false)[first].contains(first);
    if c.len() == 1 && !dependent {
        lemma_rule_step_frame(d, rules[first as int]);
        assert(c.contains(c.choose())) by {
            vstd::set_lib::lemma_set_empty_equivalency_len(c);
        }
    } else if c.len() > 1 || dependent {
        let ids = sorted_ids(c);
        lemma_sorted_ids_finite(c);
        lemma_fixpoint_frame(d, total, rules, ids);
        assert forall|k: Seq<char>| (forall|q: u32| c.contains(q) ==> rules[q as int].0.0 != k) implies #[trigger] same_at(
            d,
            scc_outcome(d, total, rules, c)->Ok_0.0,
            k,
        ) by {
            assert forall|m: int| 0 <= m < ids.len() implies rules[#[trigger] ids[m] as int].0.0 != k by {
                assert(ids.to_set().contains(ids[m]));
            }
        }
    }
}

proof fn lemma_rules_finite(db: Db, total: nat, rules: Seq<RuleView>, sccs: Seq<Set<u32>>)
    requires
        db_finite(db),
        rules_outcome(db, total, rules, sccs) is Ok,
    ensures
        db_finite(rules_outcome(db, total, rules, sccs)->Ok_0.0),
    decreases sccs.len(),
{
    if sccs.len() > 0 {
        lemma_rules_finite(db, total, rules, sccs.drop_last());
        let o = rules_outcome(db, total, rules, sccs.drop_last())->Ok_0;
        let scc = sccs.last();
        let first = scc_first(scc);
        let dependent = dependency_adj(rules, false)[first].contains(first);
        if scc.len() == 1 && !dependent {
            lemma_rule_step(o.0, rules[first as int]);
        } else if scc.len() > 1 || dependent {
            lemma_fixpoint_grows(o.0, o.2, rules, sorted_ids(scc));
        }
    }
}

/// A rule closed on `d1` stays closed on `d2` when `d2` holds the same relations under the
/// names its body reads and only more tuples elsewhere.
proof fn lemma_closed_stays(d1: Db, d2: Db, r: RuleView)
    requires
        db_finite(d1),
        db_finite(d2),
        r.1.len() >= 1,
        closed_under(d1, r),
        grows(d1, d2),
        forall|b: int| 0 <= b < r.1.len() ==> #[trigger] same_at(d1, d2, r.1[b].0),
    ensures
        closed_under(d2, r),
{
    assert forall|i: int| 0 <= i < r.1.len() implies (d1.contains_key(#[trigger] r.1[i].0) == d2.contains_key(r.1[i].0))
        && (d1.contains_key(r.1[i].0) ==> d1[r.1[i].0] == d2[r.1[i].0]) by {
        assert(same_at(d1, d2, r.1[i].0));
    }
    lemma_body_same(d1, d2, r.1, r.1.len() as int);
    assert(rule_outcome(d2, r.0, r.1) == rule_outcome(d1, r.0, r.1));
    lemma_rule_outcome_finite(d1, r.0, r.1);
    let rel = rule_outcome(d1, r.0, r.1)->Ok_0;
    let h = rel.name;
    assert(d1.contains_key(h));
    assert(d2.contains_key(h));
    law_union_lines_none(rel.tuples, d1[h].scheme, d1[h].tuples);
    assert(rel.tuples.subset_of(d2[h].tuples));
    law_union_lines_none(rel.tuples, d2[h].scheme, d2[h].tuples);
    lemma_rule_step(d2, r);
}

/// After a pass that changes nothing, every rule of the pass is closed.
proof fn lemma_pass_closed_each(d: Db, rules: Seq<RuleView>, ids: Seq<u32>)
    requires
        db_finite(d),
        pass_outcome(d, rules, ids) is Ok,
        pass_outcome(d, rules, ids)->Ok_0.0 == d,
        pass_outcome(d, rules, ids)->Ok_0.2 == 0,
    ensures
        forall|m: int| 0 <= m < ids.len() ==> closed_under(d, rules[#[trigger] ids[m] as int]),
    decreases ids.len(),
{
    if ids.len() > 0 {
        let ids1 = ids.drop_last();
        let o1 = pass_outcome(d, rules, ids1)->Ok_0;
        lemma_pass(d, rules, ids1);
        assert(o1.0 == d);
        lemma_pass_closed_each(d, rules, ids1);
        assert forall|m: int| 0 <= m < ids.len() implies closed_under(d, rules[#[trigger] ids[m] as int]) by {
            if m < ids1.len() {
                assert(ids1[m] == ids[m]);
            }
        }
    }
}

/// After evaluating a component, each of its rules is closed.
proof fn lemma_scc_closed(d: Db, total: nat, rules: Seq<RuleView>, c: Set<u32>)
    requires
        db_finite(d),
        c.finite(),
        rules.len() <= u32::MAX as nat + 1,
        all_rules_fit(rules),
        forall|q: u32| c.contains(q) ==> (q as int) < rules.len(),
        scc_outcome(d, total, rules, c) is Ok,
    ensures
        forall|q: u32| #[trigger] c.contains(q) ==> closed_under(scc_outcome(d, total, rules, c)->Ok_0.0, rules[q as int]),
{
    let first = scc_first(c);
    let dependent = dependency_adj(rules, false)[first].contains(first);
    if c.len() == 1 && !dependent {
        assert(c.contains(c.choose())) by {
            vstd::set_lib::lemma_set_empty_equivalency_len(c);
        }
        assert(c =~= set![first]) by {
            assert forall|q: u32| c.contains(q) implies q == first by {
                if q != first {
                    assert(c.remove(first).contains(q));
                    assert(c.remove(first).len() == 0);
                    vstd::set_lib::lemma_set_empty_equivalency_len(c.remove(first));
                }
            }
        }
        let r = rules[first as int];
        assert(rule_fits(r));
        law_dependency_edges(rules, first, false);
        assert forall|b: int| 0 <= b < r.1.len() implies (#[trigger] r.1[b]).0 != r.0.0 by {
            if r.1[b].0 == r.0.0 {
                assert(depends_on(rules, first as int, first as int));
            }
        }
        law_rule_once(d, r);
    } else if c.len() > 1 || dependent {
        let ids = sorted_ids(c);
        lemma_sorted_ids_finite(c);
        law_fixpoint_closed(d, total, rules, ids);
        let fin = fixpoint_outcome(d, total, rules, ids)->Ok_0.0;
        lemma_fixpoint_grows(d, total, rules, ids);
        lemma_pass_closed_each(fin, rules, ids);
        assert forall|q: u32| #[trigger] c.contains(q) implies closed_under(scc_outcome(d, total, rules, c)->Ok_0.0, rules[q as int]) by {
            assert(ids.to_set().contains(q));
            let m = choose|m: int| 0 <= m < ids.len() && ids[m] == q;
        }
    } else {
        assert forall|q: u32| #[trigger] c.contains(q) implies false by {
            vstd::set_lib::lemma_set_empty_equivalency_len(c);
        }
    }
}

/// Evaluating the first `i` components closes every rule of them.
proof fn lemma_prefix_closed(db: Db, total: nat, rules: Seq<RuleView>, i: int)
    requires
        db_finite(db),
        rules.len() <= u32::MAX as nat + 1,
        all_rules_fit(rules),
        0 <= i <= rule_components(rules).len(),
        rules_outcome(db, total, rules, rule_components(rules).take(i)) is Ok,
    ensures
        forall|a: int, q: u32|
            0 <= a < i && #[trigger] rule_components(rules)[a].contains(q) ==> closed_under(
                rules_outcome(db, total, rules, rule_components(rules).take(i))->Ok_0.0,
                rules[q as int],
            ),
    decreases i,
{
    let cs = rule_components(rules);
    if i > 0 {
        assert(cs.take(i).drop_last() =~= cs.take(i - 1));
        assert(cs.take(i).last() == cs[i - 1]);
        lemma_prefix_closed(db, total, rules, i - 1);
        lemma_rules_finite(db, total, rules, cs.take(i - 1));
        let o = rules_outcome(db, total, rules, cs.take(i - 1))->Ok_0;
        let c = cs[i - 1];
        law_components_partition(rules);
        law_components_strongly_connected(rules);
        assert(c.finite()) by {
            let ids = rule_ids(rules.len());
            assert(c.subset_of(ids.to_set())) by {
                assert forall|q: u32| c.contains(q) implies ids.to_set().contains(q) by {
                    assert(ids[q as int] == q);
                }
            }
            vstd::set_lib::lemma_set_subset_finite(ids.to_set(), c);
        }
        lemma_scc_closed(o.0, o.2, rules, c);
        lemma_scc_frame(o.0, o.2, rules, c);
        let d2 = scc_outcome(o.0, o.2, rules, c)->Ok_0.0;
        assert(d2 == rules_outcome(db, total, rules, cs.take(i))->Ok_0.0);
        lemma_rules_finite(db, total, rules, cs.take(i));
        let first = scc_first(c);
        let dependent = dependency_adj(rules, false)[first].contains(first);
        if c.len() == 1 && !dependent {
            lemma_rule_step(o.0, rules[first as int]);
        } else if c.len() > 1 || dependent {
            lemma_fixpoint_grows(o.0, o.2, rules, sorted_ids(c));
        } else {
            lemma_grows_refl(o.0);
        }
        assert forall|a: int, q: u32| 0 <= a < i && #[trigger] cs[a].contains(q) implies closed_under(d2, rules[q as int]) by {
            if a < i - 1 {
                let r = rules[q as int];
                assert(rule_fits(r));
                assert forall|b: int| 0 <= b < r.1.len() implies #[trigger] same_at(o.0, d2, r.1[b].0) by {
                    assert forall|p: u32| c.contains(p) implies rules[p as int].0.0 != r.1[b].0 by {
                        if rules[p as int].0.0 == r.1[b].0 {
                            assert(depends_on(rules, q as int, p as int));
                            assert(cs[i - 1].contains(p));
                        }
                    }
                }
                lemma_closed_stays(o.0, d2, r);
            }
        }
    }
}

/// Law: a successful evaluation of the rules ends at a model of them: evaluating any rule once
/// more on the relations it ends with derives no new tuple and changes nothing.
pub proof fn law_evaluation_closed(db: Db, total: nat, rules: Seq<RuleView>)
    requires
        db_finite(db),
        rules.len() <= u32::MAX as nat + 1,
        all_rules_fit(rules),
        rules_outcome(db, total, rules, rule_components(rules)) is Ok,
    ensures
        forall|k: int|
            0 <= k < rules.len() ==> closed_under(rules_outcome(db, total, rules, rule_components(rules))->Ok_0.0, #[trigger] rules[k]),
{
    let cs = rule_components(rules);
    assert(cs.take(cs.len() as int) =~= cs);
    lemma_prefix_closed(db, total, rules, cs.len() as int);
    law_components_partition(rules);
    assert forall|k: int| 0 <= k < rules.len() implies closed_under(
        rules_outcome(db, total, rules, cs)->Ok_0.0,
        #[trigger] rules[k],
    ) by {
        let q = k as u32;
        assert(in_some(cs, q));
        let a = choose|a: int| 0 <= a < cs.len() && #[trigger] cs[a].contains(q);
    }
}

proof fn lemma_join_mono(ls: Seq<Seq<char>>, rs: Seq<Seq<char>>, l1: Set<Tup>, r1: Set<Tup>, l2: Set<Tup>, r2: Set<Tup>)
    requires
        l1.subset_of(l2),
        r1.subset_of(r2),
    ensures
        join_set(ls, rs, l1, r1).subset_of(join_set(ls, rs, l2, r2)),
{
    assert forall|t: Tup| join_set(ls, rs, l1, r1).contains(t) implies join_set(ls, rs, l2, r2).contains(t) by {
        let (a, b) = choose|a: Tup, b: Tup|
            #![trigger l1.contains(a), r1.contains(b)]
            l1.contains(a) && r1.contains(b) && joinable_val(ls, rs, a, b) && t == join_tuple_val(ls, rs, a, b);
        assert(l2.contains(a) && r2.contains(b));
    }
}

proof fn lemma_query_mono(r1: RelView, r2: RelView, ps: Seq<Seq<char>>)
    requires
        r1.tuples.subset_of(r2.tuples),
        r1.name == r2.name,
    ensures
        query_result(r1, ps).tuples.subset_of(query_result(r2, ps).tuples),
        query_result(r1, ps).scheme == query_result(r2, ps).scheme,
        query_result(r1, ps).name == query_result(r2, ps).name,
{
    let vars = var_positions(ps, ps.len() as int);
    assert forall|t: Tup| query_result(r1, ps).tuples.contains(t) implies query_result(r2, ps).tuples.contains(t) by {
        let t0 = choose|t0: Tup|
            r1.tuples.filter(|t: Tup| passes_before(ps, t, ps.len() as int)).contains(t0) && pick(t0, vars) == t;
        assert(r2.tuples.filter(|t: Tup| passes_before(ps, t, ps.len() as int)).contains(t0));
    }
}

/// `d` has the relations of `m`, under the same names and columns, with at most their tuples.
pub open spec fn below(d: Db, m: Db) -> bool {
    grows(d, m)
}

proof fn lemma_body_mono(d: Db, m: Db, body: Seq<PredView>, n: int)
    requires
        below(d, m),
        body_outcome(d, body, n) is Ok,
        body_outcome(m, body, n) is Ok,
    ensures
        body_outcome(d, body, n)->Ok_0.tuples.subset_of(body_outcome(m, body, n)->Ok_0.tuples),
        body_outcome(d, body, n)->Ok_0.scheme == body_outcome(m, body, n)->Ok_0.scheme,
        body_outcome(d, body, n)->Ok_0.name == body_outcome(m, body, n)->Ok_0.name,
    decreases n,
{
    if n <= 1 {
        let p = body[0];
        assert(d.contains_key(p.0));
        lemma_query_mono(d[p.0], m[p.0], p.1);
    } else {
        lemma_body_mono(d, m, body, n - 1);
        let p = body[n - 1];
        assert(d.contains_key(p.0));
        lemma_query_mono(d[p.0], m[p.0], p.1);
        let a1 = body_outcome(d, body, n - 1)->Ok_0;
        let a2 = body_outcome(m, body, n - 1)->Ok_0;
        let t1 = renamed_outcome(d, p)->Ok_0;
        let t2 = renamed_outcome(m, p)->Ok_0;
        lemma_join_mono(a1.scheme, t1.scheme, a1.tuples, t1.tuples, a2.tuples, t2.tuples);
    }
}

/// A rule step from relations below a model closed under the rule stays below the model.
proof fn lemma_step_below(d: Db, m: Db, r: RuleView)
    requires
        below(d, m),
        db_finite(m),
        closed_under(m, r),
        rule_step(d, r) is Ok,
    ensures
        below(rule_step(d, r)->Ok_0.0, m),
{
    lemma_body_mono(d, m, r.1, r.1.len() as int);
    let b1 = body_outcome(d, r.1, r.1.len() as int)->Ok_0;
    let b2 = body_outcome(m, r.1, r.1.len() as int)->Ok_0;
    let f = |t: Tup| pick(t, head_positions(b1.scheme, r.0.1));
    assert(b1.tuples.map(f).subset_of(b2.tuples.map(f))) by {
        assert forall|t: Tup| b1.tuples.map(f).contains(t) implies b2.tuples.map(f).contains(t) by {
            let t0 = choose|t0: Tup| b1.tuples.contains(t0) && f(t0) == t;
            assert(b2.tuples.contains(t0));
        }
    }
    let rel1 = rule_outcome(d, r.0, r.1)->Ok_0;
    let rel2 = rule_outcome(m, r.0, r.1)->Ok_0;
    assert(rel1.tuples.subset_of(rel2.tuples));
    let h = r.0.0;
    lemma_rule_outcome_finite(m, r.0, r.1);
    law_union_lines_none(rel2.tuples, m[h].scheme, m[h].tuples);
    let d2 = rule_step(d, r)->Ok_0.0;
    assert(d2.dom() =~= d.dom());
    assert forall|k: Seq<char>| #![trigger d2[k], m[k]] d2.contains_key(k) implies m[k].name == d2[k].name && m[k].scheme
        == d2[k].scheme && d2[k].tuples.subset_of(m[k].tuples) by {
        assert(d.contains_key(k));
        assert(m[k].name == d[k].name);
    }
}

proof fn lemma_pass_below(d: Db, m: Db, rules: Seq<RuleView>, ids: Seq<u32>)
    requires
        below(d, m),
        db_finite(m),
        forall|q: int| 0 <= q < ids.len() ==> closed_under(m, rules[#[trigger] ids[q] as int]),
        pass_outcome(d, rules, ids) is Ok,
    ensures
        below(pass_outcome(d, rules, ids)->Ok_0.0, m),
    decreases ids.len(),
{
    if ids.len() > 0 {
        let ids1 = ids.drop_last();
        assert forall|q: int| 0 <= q < ids1.len() implies closed_under(m, rules[#[trigger] ids1[q] as int]) by {
            assert(ids1[q] == ids[q]);
        }
        lemma_pass_below(d, m, rules, ids1);
        let d1 = pass_outcome(d, rules, ids1)->Ok_0.0;
        assert(closed_under(m, rules[ids[ids.len() - 1] as int]));
        lemma_step_below(d1, m, rules[ids.last() as int]);
    }
}

proof fn lemma_fixpoint_below(d: Db, total: nat, m: Db, rules: Seq<RuleView>, ids: Seq<u32>)
    requires
        below(d, m),
        db_finite(m),
        forall|q: int| 0 <= q < ids.len() ==> closed_under(m, rules[#[trigger] ids[q] as int]),
        fixpoint_outcome(d, total, rules, ids) is Ok,
    ensures
        below(fixpoint_outcome(d, total, rules, ids)->Ok_0.0, m),
    decreases (u32::MAX as int) - (total as int),
{
    lemma_pass_below(d, m, rules, ids);
    let o = pass_outcome(d, rules, ids)->Ok_0;
    if o.2 != 0 {
        lemma_fixpoint_below(o.0, total + o.2, m, rules, ids);
    }
}

/// Law: evaluating the components in order, from relations below a model of the rules (a
/// set of relations that each rule, evaluated once more, leaves unchanged), stays below that
/// model: the evaluation adds no tuple that every such model does not hold.
pub proof fn law_evaluation_least(db: Db, total: nat, rules: Seq<RuleView>, sccs: Seq<Set<u32>>, m: Db)
    requires
        below(db, m),
        db_finite(m),
        forall|k: int| 0 <= k < rules.len() ==> closed_under(m, #[trigger] rules[k]),
        forall|i: int, q: u32| 0 <= i < sccs.len() && #[trigger] sccs[i].contains(q) ==> (q as int) < rules.len(),
        forall|i: int| 0 <= i < sccs.len() ==> (#[trigger] sccs[i]).finite(),
        rules_outcome(db, total, rules, sccs) is Ok,
    ensures
        below(rules_outcome(db, total, rules, sccs)->Ok_0.0, m),
    decreases sccs.len(),
{
    if sccs.len() > 0 {
        let s1 = sccs.drop_last();
        assert forall|i: int, q: u32| 0 <= i < s1.len() && #[trigger] s1[i].contains(q) implies (q as int) < rules.len() by {
            assert(sccs[i] == s1[i]);
        }
        assert forall|i: int| 0 <= i < s1.len() implies (#[trigger] s1[i]).finite() by {
            assert(sccs[i] == s1[i]);
        }
        law_evaluation_least(db, total, rules, s1, m);
        let o = rules_outcome(db, total, rules, s1)->Ok_0;
        let c = sccs.last();
        assert(c.finite());
        let first = scc_first(c);
        let dependent = dependency_adj(rules, false)[first].contains(first);
        if c.len() == 1 && !dependent {
            assert(c.contains(c.choose())) by {
                vstd::set_lib::lemma_set_empty_equivalency_len(c);
            }
            assert(sccs[sccs.len() - 1].contains(first));
            assert(closed_under(m, rules[first as int]));
            lemma_step_below(o.0, m, rules[first as int]);
        } else if c.len() > 1 || dependent {
            let ids = sorted_ids(c);
            lemma_sorted_ids_finite(c);
            assert forall|q: int| 0 <= q < ids.len() implies closed_under(m, rules[#[trigger] ids[q] as int]) by {
                assert(ids.to_set().contains(ids[q]));
                assert(sccs[sccs.len() - 1].contains(ids[q]));
            }
            lemma_fixpoint_below(o.0, o.2, m, rules, ids);
        }
    }
}

/// The answer to body predicate `k` of a rule, as the rule joins it: the first as a query
/// answer, with one column per variable; the others with their parameters as columns.
pub open spec fn body_answer(db: Db, body: Seq<PredView>, k: int) -> Result<RelView, EvalError> {
    if k == 0 {
        query_outcome(db, body[0])
    } else {
        renamed_outcome(db, body[k])
    }
}

/// The assignment `sigma` of values to column names satisfies the first `n` body predicates:
/// each answer holds the tuple that `sigma` gives its columns.
pub open spec fn satisfies_body(db: Db, body: Seq<PredView>, n: int, sigma: spec_fn(Seq<char>) -> Seq<char>) -> bool {
    forall|k: int|
        0 <= k < n ==> (#[trigger] body_answer(db, body, k)) is Ok && body_answer(db, body, k)->Ok_0.tuples.contains(
            body_answer(db, body, k)->Ok_0.scheme.map_values(sigma),
        )
}

proof fn lemma_read_back(s: Seq<Seq<char>>, w: Tup)
    requires
        s.no_duplicates(),
        w.len() == s.len(),
    ensures
        s.map_values(|x: Seq<char>| entry_named(s, w, x)) == w,
{
    assert forall|p: int| 0 <= p < s.len() implies first_from(s, s[p], 0) == p by {
        lemma_first_from(s, s[p], 0, p);
    }
    assert(s.map_values(|x: Seq<char>| entry_named(s, w, x)) =~= w);
}

proof fn lemma_entries_of_assignment(js: Seq<Seq<char>>, names: Seq<Seq<char>>, sigma: spec_fn(Seq<char>) -> Seq<char>)
    requires
        forall|i: int| 0 <= i < names.len() ==> js.contains(#[trigger] names[i]),
    ensures
        entries_named(js, js.map_values(sigma), names) == names.map_values(sigma),
{
    assert forall|i: int| 0 <= i < names.len() implies #[trigger] entries_named(js, js.map_values(sigma), names)[i]
        == sigma(names[i]) by {
        let x = names[i];
        let j = choose|j: int| 0 <= j < js.len() && js[j] == x;
        lemma_first_from(js, x, 0, j);
    }
    assert(entries_named(js, js.map_values(sigma), names) =~= names.map_values(sigma));
}

/// The join of the answers to the first `n` body predicates, by name: it has distinct columns
/// and an entry per column, at most as many columns as parameters, holds every column of each
/// answer, and its tuples are exactly the assignments to its columns that satisfy those
/// predicates.
pub open spec fn body_join_ok(db: Db, body: Seq<PredView>, n: int) -> bool {
    &&& body_outcome(db, body, n) is Ok
    &&& arity_ok(body_outcome(db, body, n)->Ok_0)
    &&& body_outcome(db, body, n)->Ok_0.scheme.len() <= params_count(body, n)
    &&& forall|k: int| 0 <= k < n ==> (#[trigger] body_answer(db, body, k)) is Ok
    &&& forall|k: int, p: int|
        0 <= k < n && 0 <= p < body_answer(db, body, k)->Ok_0.scheme.len() ==> body_outcome(db, body, n)->Ok_0.scheme.contains(
            #[trigger] body_answer(db, body, k)->Ok_0.scheme[p],
        )
    &&& forall|w: Tup|
        #[trigger] body_outcome(db, body, n)->Ok_0.tuples.contains(w) ==> satisfies_body(
            db,
            body,
            n,
            |x: Seq<char>| entry_named(body_outcome(db, body, n)->Ok_0.scheme, w, x),
        )
    &&& forall|sigma: spec_fn(Seq<char>) -> Seq<char>|
        #[trigger] satisfies_body(db, body, n, sigma) ==> body_outcome(db, body, n)->Ok_0.tuples.contains(
            body_outcome(db, body, n)->Ok_0.scheme.map_values(sigma),
        )
}

proof fn lemma_body_join_first(db: Db, body: Seq<PredView>)
    requires
        1 <= body.len(),
        body_outcome(db, body, 1) is Ok,
        params_count(body, 1) <= u32::MAX,
    ensures
        body_join_ok(db, body, 1),
{
    let n = 1int;
    let jn = body_outcome(db, body, 1)->Ok_0;
    let p0 = body[0];
    assert(params_count(body, 0) == 0);
    assert(params_count(body, 1) == p0.1.len());
    lemma_query_arity(db[p0.0], p0.1);
    assert(body_answer(db, body, 0) == body_outcome(db, body, 1));
    assert forall|w: Tup| #[trigger] jn.tuples.contains(w) implies satisfies_body(
        db,
        body,
        n,
        |x: Seq<char>| entry_named(jn.scheme, w, x),
    ) by {
        lemma_read_back(jn.scheme, w);
    }
    assert forall|k: int, p: int|
        0 <= k < n && 0 <= p < body_answer(db, body, k)->Ok_0.scheme.len() implies jn.scheme.contains(
        #[trigger] body_answer(db, body, k)->Ok_0.scheme[p],
    ) by {
        assert(k == 0);
    }
    assert forall|sigma: spec_fn(Seq<char>) -> Seq<char>| #[trigger] satisfies_body(db, body, n, sigma) implies jn.tuples.contains(
        jn.scheme.map_values(sigma),
    ) by {
        assert(body_answer(db, body, 0) is Ok);
    }
}

/// The answer to a later body predicate, when the rule can use it: its columns are the
/// predicate's parameters, distinct, and each tuple has an entry per column.
proof fn lemma_later_answer(db: Db, body: Seq<PredView>, k: int)
    requires
        1 <= k < body.len(),
        renamed_outcome(db, body[k]) is Ok,
        body[k].1.len() <= u32::MAX,
    ensures
        arity_ok(renamed_outcome(db, body[k])->Ok_0),
        renamed_outcome(db, body[k])->Ok_0.scheme == body[k].1,
        body_answer(db, body, k) == renamed_outcome(db, body[k]),
{
    let pr = body[k];
    lemma_query_arity(db[pr.0], pr.1);
}

#[verifier::rlimit(60)]
proof fn lemma_body_join_sound(db: Db, body: Seq<PredView>, n: int, w: Tup)
    requires
        2 <= n <= body.len(),
        body_join_ok(db, body, n - 1),
        body_outcome(db, body, n) is Ok,
        arity_ok(renamed_outcome(db, body[n - 1])->Ok_0),
        body_answer(db, body, n - 1) == renamed_outcome(db, body[n - 1]),
        body_outcome(db, body, n)->Ok_0.tuples.contains(w),
    ensures
        satisfies_body(db, body, n, |x: Seq<char>| entry_named(body_outcome(db, body, n)->Ok_0.scheme, w, x)),
{
    let jn = body_outcome(db, body, n)->Ok_0;
    let j = body_outcome(db, body, n - 1)->Ok_0;
    let a = renamed_outcome(db, body[n - 1])->Ok_0;
    law_join_by_names(j, a);
    let js = join_scheme(j.scheme, a.scheme);
    assert(jn.scheme == js);
    assert(jn.tuples == join_set(j.scheme, a.scheme, j.tuples, a.tuples));
    let sw = |x: Seq<char>| entry_named(js, w, x);
    let u = entries_named(js, w, j.scheme);
    let v = entries_named(js, w, a.scheme);
    assert(j.tuples.contains(u) && a.tuples.contains(v));
    let su = |x: Seq<char>| entry_named(j.scheme, u, x);
    assert(satisfies_body(db, body, n - 1, su));
    assert forall|k: int| 0 <= k < n implies (#[trigger] body_answer(db, body, k)) is Ok && body_answer(db, body, k)->Ok_0.tuples.contains(
        body_answer(db, body, k)->Ok_0.scheme.map_values(sw),
    ) by {
        let ak = body_answer(db, body, k)->Ok_0;
        if k < n - 1 {
            assert(ak.tuples.contains(ak.scheme.map_values(su)));
            assert forall|p: int| 0 <= p < ak.scheme.len() implies #[trigger] ak.scheme.map_values(su)[p]
                == ak.scheme.map_values(sw)[p] by {
                let x = ak.scheme[p];
                assert(j.scheme.contains(x));
                let i = choose|i: int| 0 <= i < j.scheme.len() && j.scheme[i] == x;
                lemma_first_from(j.scheme, x, 0, i);
            }
            assert(ak.scheme.map_values(su) =~= ak.scheme.map_values(sw));
        } else {
            assert(ak == a);
            assert(a.scheme.map_values(sw) =~= v);
        }
    }
}

proof fn lemma_body_join_complete(db: Db, body: Seq<PredView>, n: int, sigma: spec_fn(Seq<char>) -> Seq<char>)
    requires
        2 <= n <= body.len(),
        body_join_ok(db, body, n - 1),
        body_outcome(db, body, n) is Ok,
        arity_ok(renamed_outcome(db, body[n - 1])->Ok_0),
        body_answer(db, body, n - 1) == renamed_outcome(db, body[n - 1]),
        satisfies_body(db, body, n, sigma),
    ensures
        body_outcome(db, body, n)->Ok_0.tuples.contains(body_outcome(db, body, n)->Ok_0.scheme.map_values(sigma)),
{
    let jn = body_outcome(db, body, n)->Ok_0;
    let j = body_outcome(db, body, n - 1)->Ok_0;
    let a = renamed_outcome(db, body[n - 1])->Ok_0;
    law_join_by_names(j, a);
    let js = join_scheme(j.scheme, a.scheme);
    assert(jn.scheme == js);
    assert(jn.tuples == join_set(j.scheme, a.scheme, j.tuples, a.tuples));
    assert(satisfies_body(db, body, n - 1, sigma));
    assert(j.tuples.contains(j.scheme.map_values(sigma)));
    assert(body_answer(db, body, n - 1) is Ok);
    assert(a.tuples.contains(a.scheme.map_values(sigma)));
    assert forall|i: int| 0 <= i < j.scheme.len() implies js.contains(#[trigger] j.scheme[i]) by {
        assert(j.scheme.contains(j.scheme[i]));
    }
    assert forall|i: int| 0 <= i < a.scheme.len() implies js.contains(#[trigger] a.scheme[i]) by {
        assert(a.scheme.contains(a.scheme[i]));
    }
    lemma_entries_of_assignment(js, j.scheme, sigma);
    lemma_entries_of_assignment(js, a.scheme, sigma);
}

proof fn lemma_body_join(db: Db, body: Seq<PredView>, n: int)
    requires
        1 <= n <= body.len(),
        body_outcome(db, body, n) is Ok,
        params_count(body, n) <= u32::MAX,
    ensures
        body_join_ok(db, body, n),
    decreases n,
{
    if n == 1 {
        lemma_body_join_first(db, body);
    } else {
        lemma_params_count_le(body, n - 1, n);
        assert(body_outcome(db, body, n - 1) is Ok);
        lemma_body_join(db, body, n - 1);
        let jn = body_outcome(db, body, n)->Ok_0;
        let j = body_outcome(db, body, n - 1)->Ok_0;
        let pr = body[n - 1];
        assert(renamed_outcome(db, pr) is Ok);
        lemma_later_answer(db, body, n - 1);
        let a = renamed_outcome(db, pr)->Ok_0;
        lemma_join_arity(j, a);
        law_join_by_names(j, a);
        let js = join_scheme(j.scheme, a.scheme);
        assert(jn.scheme == js);
        assert forall|k: int| 0 <= k < n implies (#[trigger] body_answer(db, body, k)) is Ok by {
            if k < n - 1 {
                assert(body_answer(db, body, k) is Ok);
            }
        }
        assert forall|k: int, p: int|
            0 <= k < n && 0 <= p < body_answer(db, body, k)->Ok_0.scheme.len() implies jn.scheme.contains(
            #[trigger] body_answer(db, body, k)->Ok_0.scheme[p],
        ) by {
            let x = body_answer(db, body, k)->Ok_0.scheme[p];
            if k < n - 1 {
                assert(j.scheme.contains(x));
            } else {
                assert(a.scheme[p] == x);
                assert(a.scheme.contains(x));
            }
            assert(js.contains(x));
        }
        assert forall|w: Tup| #[trigger] jn.tuples.contains(w) implies satisfies_body(
            db,
            body,
            n,
            |x: Seq<char>| entry_named(jn.scheme, w, x),
        ) by {
            lemma_body_join_sound(db, body, n, w);
        }
        assert forall|sigma: spec_fn(Seq<char>) -> Seq<char>| #[trigger] satisfies_body(db, body, n, sigma) implies jn.tuples.contains(
            jn.scheme.map_values(sigma),
        ) by {
            lemma_body_join_complete(db, body, n, sigma);
        }
    }
}

proof fn lemma_params_count_le(body: Seq<PredView>, i: int, n: int)
    requires
        0 <= i <= n,
    ensures
        params_count(body, i) <= params_count(body, n),
    decreases n - i,
{
    if i < n {
        lemma_params_count_le(body, i, n - 1);
    }
}

/// Law: a rule derives exactly the head instances of the assignments that satisfy its whole
/// body. A tuple is derived only if some assignment of values to the variables gives it as the
/// head's variables and gives every body predicate, the last as much as the first, a tuple of
/// that predicate's answer; and every such assignment gives a derived tuple.
#[verifier::rlimit(60)]
pub proof fn law_rule_derives(db: Db, head: PredView, body: Seq<PredView>)
    requires
        body.len() >= 1,
        params_count(body, body.len() as int) <= u32::MAX,
        rule_outcome(db, head, body) is Ok,
    ensures
        rule_outcome(db, head, body)->Ok_0.name == head.0,
        rule_outcome(db, head, body)->Ok_0.scheme == head.1,
        forall|k: int| 0 <= k < body.len() ==> (#[trigger] body_answer(db, body, k)) is Ok,
        forall|t: Tup|
            #[trigger] rule_outcome(db, head, body)->Ok_0.tuples.contains(t) ==> exists|sigma: spec_fn(Seq<char>) -> Seq<char>|
                #[trigger] satisfies_body(db, body, body.len() as int, sigma) && t == head.1.map_values(sigma),
        forall|sigma: spec_fn(Seq<char>) -> Seq<char>|
            #[trigger] satisfies_body(db, body, body.len() as int, sigma) ==> rule_outcome(db, head, body)->Ok_0.tuples.contains(
                head.1.map_values(sigma),
            ),
{
    let n = body.len() as int;
    lemma_body_join(db, body, n);
    let jn = body_outcome(db, body, n)->Ok_0;
    let rel = rule_outcome(db, head, body)->Ok_0;
    let hp = head_positions(jn.scheme, head.1);
    assert forall|i: int| 0 <= i < head.1.len() implies first_from(jn.scheme, #[trigger] head.1[i], 0) < jn.scheme.len()
        && jn.scheme[first_from(jn.scheme, head.1[i], 0)] == head.1[i] && hp[i] as int == first_from(jn.scheme, head.1[i], 0) by {
        assert(jn.scheme.contains(head.1[i]));
        let j = choose|j: int| 0 <= j < jn.scheme.len() && jn.scheme[j] == head.1[i];
        lemma_first_from(jn.scheme, head.1[i], 0, j);
    }
    assert forall|t: Tup| #[trigger] rel.tuples.contains(t) implies exists|sigma: spec_fn(Seq<char>) -> Seq<char>|
        #[trigger] satisfies_body(db, body, n, sigma) && t == head.1.map_values(sigma) by {
        let w = choose|w: Tup| jn.tuples.contains(w) && pick(w, hp) == t;
        let sw = |x: Seq<char>| entry_named(jn.scheme, w, x);
        assert(satisfies_body(db, body, n, sw));
        assert(t =~= head.1.map_values(sw));
    }
    assert forall|sigma: spec_fn(Seq<char>) -> Seq<char>| #[trigger] satisfies_body(db, body, n, sigma) implies rel.tuples.contains(
        head.1.map_values(sigma),
    ) by {
        let w = jn.scheme.map_values(sigma);
        assert(jn.tuples.contains(w));
        assert(pick(w, hp) =~= head.1.map_values(sigma));
    }
}

/// The assignment `sigma` matches the predicate `p` against its relation: the relation holds a
/// tuple that has every constant of `p` in place, takes equal values wherever a parameter
/// repeats, and holds `sigma`'s value of each variable wherever the variable stands.
pub open spec fn matches_pred(db: Db, p: PredView, sigma: spec_fn(Seq<char>) -> Seq<char>) -> bool {
    exists|u: Tup|
        #[trigger] db[p.0].tuples.contains(u) && answers_query(p.1, u) && forall|i: int|
            0 <= i < p.1.len() && !is_constant(#[trigger] p.1[i]) ==> u[i] == sigma(p.1[i])
}

/// The assignment `sigma` matches each of the first `n` body predicates against its relation.
pub open spec fn matches_body(db: Db, body: Seq<PredView>, n: int, sigma: spec_fn(Seq<char>) -> Seq<char>) -> bool {
    forall|k: int| 0 <= k < n ==> #[trigger] matches_pred(db, body[k], sigma)
}

proof fn lemma_answer_matches(db: Db, body: Seq<PredView>, k: int, sigma: spec_fn(Seq<char>) -> Seq<char>)
    requires
        0 <= k < body.len(),
        body_answer(db, body, k) is Ok,
        body[k].1.len() <= u32::MAX,
        forall|u: Tup| db[body[k].0].tuples.contains(u) ==> u.len() >= body[k].1.len(),
    ensures
        db.contains_key(body[k].0),
        body_answer(db, body, k)->Ok_0.tuples.contains(body_answer(db, body, k)->Ok_0.scheme.map_values(sigma))
            <==> matches_pred(db, body[k], sigma),
{
    let ps = body[k].1;
    let rel = db[body[k].0];
    let q = query_result(rel, ps);
    let sc = q.scheme;
    lemma_query_arity(rel, ps);
    law_query_answers(rel, ps);
    let a = body_answer(db, body, k)->Ok_0;
    assert(a.scheme == sc && a.tuples == q.tuples);
    let w = sc.map_values(sigma);
    if q.tuples.contains(w) {
        let u = choose|u: Tup| #[trigger] rel.tuples.contains(u) && answers_query(ps, u) && binds_variables(ps, sc, u, w);
        assert forall|i: int| 0 <= i < ps.len() && !is_constant(#[trigger] ps[i]) implies u[i] == sigma(ps[i]) by {
            assert(sc.contains(ps[i]));
            let m = choose|m: int| 0 <= m < sc.len() && sc[m] == ps[i];
            assert(w[m] == sigma(sc[m]));
        }
        assert(rel.tuples.contains(u));
    }
    if exists|u: Tup|
        #[trigger] rel.tuples.contains(u) && answers_query(ps, u) && forall|i: int|
            0 <= i < ps.len() && !is_constant(#[trigger] ps[i]) ==> u[i] == sigma(ps[i]) {
        let u = choose|u: Tup|
            #[trigger] rel.tuples.contains(u) && answers_query(ps, u) && forall|i: int|
                0 <= i < ps.len() && !is_constant(#[trigger] ps[i]) ==> u[i] == sigma(ps[i]);
        assert forall|m: int, i: int| 0 <= m < sc.len() && 0 <= i < ps.len() && #[trigger] ps[i] == #[trigger] sc[m] implies w[m] == u[i] by {
            assert(!is_constant(sc[m]));
        }
        assert(binds_variables(ps, sc, u, w));
    }
}

/// Law: a rule derives exactly the head instances of the assignments that match its whole body
/// against the relations. A tuple is derived only if some assignment of values to the
/// variables gives it as the head's variables and, for every body predicate, the last as much
/// as the first, the predicate's relation holds a tuple with the predicate's constants and the
/// assignment's values in place; and every such assignment gives a derived tuple.
#[verifier::rlimit(60)]
pub proof fn law_rule_matches(db: Db, head: PredView, body: Seq<PredView>)
    requires
        body.len() >= 1,
        params_count(body, body.len() as int) <= u32::MAX,
        rule_outcome(db, head, body) is Ok,
        forall|k: int, u: Tup|
            0 <= k < body.len() && #[trigger] db[body[k].0].tuples.contains(u) ==> u.len() >= body[k].1.len(),
    ensures
        rule_outcome(db, head, body)->Ok_0.scheme == head.1,
        forall|t: Tup|
            #[trigger] rule_outcome(db, head, body)->Ok_0.tuples.contains(t) ==> exists|sigma: spec_fn(Seq<char>) -> Seq<char>|
                #[trigger] matches_body(db, body, body.len() as int, sigma) && t == head.1.map_values(sigma),
        forall|sigma: spec_fn(Seq<char>) -> Seq<char>|
            #[trigger] matches_body(db, body, body.len() as int, sigma) ==> rule_outcome(db, head, body)->Ok_0.tuples.contains(
                head.1.map_values(sigma),
            ),
{
    let n = body.len() as int;
    law_rule_derives(db, head, body);
    assert forall|sigma: spec_fn(Seq<char>) -> Seq<char>| #[trigger] satisfies_body(db, body, n, sigma) <==> matches_body(db, body, n, sigma) by {
        assert forall|k: int| 0 <= k < n implies (body_answer(db, body, k)->Ok_0.tuples.contains(
            body_answer(db, body, k)->Ok_0.scheme.map_values(sigma),
        ) <==> #[trigger] matches_pred(db, body[k], sigma)) by {
            assert(body_answer(db, body, k) is Ok);
            lemma_params_count(body, k, n);
            lemma_answer_matches(db, body, k, sigma);
        }
        if satisfies_body(db, body, n, sigma) {
            assert forall|k: int| 0 <= k < n implies #[trigger] matches_pred(db, body[k], sigma) by {
                assert(body_answer(db, body, k) is Ok);
            }
        }
        if matches_body(db, body, n, sigma) {
            assert forall|k: int| 0 <= k < n implies (#[trigger] body_answer(db, body, k)) is Ok && body_answer(db, body, k)->Ok_0.tuples.contains(
                body_answer(db, body, k)->Ok_0.scheme.map_values(sigma),
            ) by {
                assert(body_answer(db, body, k) is Ok);
                assert(matches_pred(db, body[k], sigma));
            }
        }
    }
    assert forall|sigma: spec_fn(Seq<char>) -> Seq<char>| #[trigger] matches_body(db, body, n, sigma) implies rule_outcome(db, head, body)->Ok_0.tuples.contains(
        head.1.map_values(sigma),
    ) by {
        assert(satisfies_body(db, body, n, sigma));
    }
}

} // verus!
