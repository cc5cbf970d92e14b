use vstd::prelude::*;
use vstd::string::*;
use crate::database::{
    Database, first_from, lemma_first_from, lemma_query_arity, listed_sorted, query_result, query_safe, union_lines, };
use crate::graph::{
    Graph, components, components_view, edges_text, forest_from, graph_line, has_node, ids_text, increasing, label, lemma_components_within,
    lemma_contains_insert_sorted, lemma_increasing_unique, lemma_insert_sorted, rule_label,
    sort_ids,
};
use crate::parser::{DatalogProgram, PredView, Predicate, Rule, RuleView, preds_view, rule_text, rules_view};
use crate::relation::{
    RelView, Relation, Tup, answer_text, arity_ok, join_scheme, join_set, lemma_join_arity, pick,
};
use crate::model::{closed_under, law_evaluation_closed};
use crate::text::{clone_row, decimal, push_decimal};

verus! {

/// Runs a Datalog program: builds its relations from the schemes and facts, evaluates its
/// rules, and answers its queries.
pub struct Interpreter {
    schemes: Vec<Predicate>,
    facts: Vec<Predicate>,
    rules: Vec<Rule>,
    queries: Vec<Predicate>,
    database: Database,
}

/// The relations after adding an empty relation for each scheme, in order.
pub open spec fn with_schemes(db: Map<Seq<char>, RelView>, s: Seq<PredView>) -> Map<Seq<char>, RelView>
    decreases s.len(),
{
    if s.len() == 0 {
        db
    } else {
        with_schemes(db, s.drop_last()).insert(
            s.last().0,
            RelView { name: s.last().0, scheme: s.last().1, tuples: Set::empty() },
        )
    }
}

/// The relations after adding each fact, in order, to the relation of its name, if there is one.
pub open spec fn with_facts(db: Map<Seq<char>, RelView>, s: Seq<PredView>) -> Map<Seq<char>, RelView>
    decreases s.len(),
{
    if s.len() == 0 {
        db
    } else {
        let d = with_facts(db, s.drop_last());
        let f = s.last();
        if d.contains_key(f.0) {
            d.insert(f.0, RelView { tuples: d[f.0].tuples.insert(f.1), ..d[f.0] })
        } else {
            d
        }
    }
}

/// The number of tuples left after adding the schemes in order to relations `db` holding
/// `total` tuples: a scheme replaces the relation of its name and drops its tuples.
pub open spec fn total_after_schemes(db: Map<Seq<char>, RelView>, total: int, s: Seq<PredView>) -> int
    decreases s.len(),
{
    if s.len() == 0 {
        total
    } else {
        let d = with_schemes(db, s.drop_last());
        total_after_schemes(db, total, s.drop_last()) - if d.contains_key(s.last().0) {
            d[s.last().0].tuples.len() as int
        } else {
            0
        }
    }
}

/// The number of facts that add a tuple, added in order to the relations `db`.
pub open spec fn facts_added(db: Map<Seq<char>, RelView>, s: Seq<PredView>) -> nat
    decreases s.len(),
{
    if s.len() == 0 {
        0
    } else {
        let d = with_facts(db, s.drop_last());
        let f = s.last();
        facts_added(db, s.drop_last()) + if d.contains_key(f.0) && !d[f.0].tuples.contains(f.1) {
            1nat
        } else {
            0nat
        }
    }
}

/// Rule `from` depends on rule `to`: a predicate in the body of `from` has the name of the
/// head of `to`.
pub open spec fn depends_on(rules: Seq<RuleView>, from: int, to: int) -> bool {
    exists|b: int| 0 <= b < rules[from].1.len() && rules[from].1[b].0 == rules[to].0.0
}

/// The rules that rule `k` depends on, or, reversed, the rules that depend on it.
pub open spec fn dep_set(rules: Seq<RuleView>, k: u32, reverse: bool) -> Set<u32> {
    Set::new(
        |j: u32|
            (j as int) < rules.len() && if reverse {
                depends_on(rules, j as int, k as int)
            } else {
                depends_on(rules, k as int, j as int)
            },
    )
}

/// The numbers of `s` in increasing order.
pub open spec fn sorted_ids(s: Set<u32>) -> Seq<u32> {
    choose|q: Seq<u32>| increasing(q) && q.to_set() == s
}

/// The edges of rule `k` in the dependency graph, in increasing order.
pub open spec fn dep_edges(rules: Seq<RuleView>, k: u32, reverse: bool) -> Seq<u32> {
    sorted_ids(dep_set(rules, k, reverse))
}

/// The dependency graph of the rules (reversed when `reverse`): a node per rule.
pub open spec fn dependency_adj(rules: Seq<RuleView>, reverse: bool) -> Map<u32, Seq<u32>> {
    Map::new(|k: u32| (k as int) < rules.len(), |k: u32| dep_edges(rules, k, reverse))
}

/// The rule numbers `0, 1, ..., n - 1`.
pub open spec fn rule_ids(n: nat) -> Seq<u32> {
    Seq::new(n, |i: int| i as u32)
}

/// The components the dependency graph is evaluated by: a depth-first forest over the reversed
/// graph gives the order, and searches in the graph from the last finished node gather them.
pub open spec fn rule_components(rules: Seq<RuleView>) -> Seq<Set<u32>> {
    let order = forest_from(dependency_adj(rules, true), rule_ids(rules.len()), 0, Set::empty()).1;
    components(dependency_adj(rules, false), order, Set::empty(), Set::empty()).1
}

/// The printed dependency graph: `R<id>:R<a>,R<b>,...` for each rule, then an empty line.
pub open spec fn graph_text(rules: Seq<RuleView>) -> Seq<Seq<char>> {
    rule_ids(rules.len()).map_values(|id: u32| graph_line(id, dep_edges(rules, id, false))).push(Seq::empty())
}

/// What stops the evaluation of a rule or the answer to a query.
#[derive(PartialEq, Eq, Structural, Debug, Clone, Copy)]
pub enum EvalError {
    /// A predicate names no relation.
    MissingRelation,
    /// A query reads an entry that a stored tuple lacks.
    ShortTuple,
    /// A body predicate after the first has more parameters than its answer has columns: it
    /// holds a constant or a repeated variable.
    RenameOutOfRange,
    /// A variable of the head occurs in no predicate of the body.
    UnboundHeadVariable,
    /// The number of tuples over all relations does not fit in `u32`.
    TooManyTuples,
}

/// The answer to the predicate `p` read as a query on the relations `db`.
pub open spec fn query_outcome(db: Map<Seq<char>, RelView>, p: PredView) -> Result<RelView, EvalError> {
    if !db.contains_key(p.0) {
        Err(EvalError::MissingRelation)
    } else if !query_safe(db[p.0], p.1) {
        Err(EvalError::ShortTuple)
    } else {
        Ok(query_result(db[p.0], p.1))
    }
}

/// The answer to `p`, with its columns renamed to the parameters of `p` in order.
pub open spec fn renamed_outcome(db: Map<Seq<char>, RelView>, p: PredView) -> Result<RelView, EvalError> {
    match query_outcome(db, p) {
        Err(e) => Err(e),
        Ok(q) => if p.1.len() > q.scheme.len() {
            Err(EvalError::RenameOutOfRange)
        } else {
            Ok(RelView { scheme: p.1, ..q })
        },
    }
}

/// The join of the answers to the first `n` predicates of a rule body.
pub open spec fn body_outcome(db: Map<Seq<char>, RelView>, body: Seq<PredView>, n: int) -> Result<RelView, EvalError>
    decreases n,
{
    if n <= 1 {
        query_outcome(db, body[0])
    } else {
        match body_outcome(db, body, n - 1) {
            Err(e) => Err(e),
            Ok(acc) => match renamed_outcome(db, body[n - 1]) {
                Err(e) => Err(e),
                Ok(t) => Ok(
                    RelView {
                        name: acc.name + " and "@ + t.name,
                        scheme: join_scheme(acc.scheme, t.scheme),
                        tuples: join_set(acc.scheme, t.scheme, acc.tuples, t.tuples),
                    },
                ),
            },
        }
    }
}

/// The first column of `scheme` named by each parameter.
pub open spec fn head_positions(scheme: Seq<Seq<char>>, params: Seq<Seq<char>>) -> Seq<u32> {
    params.map_values(|p: Seq<char>| first_from(scheme, p, 0) as u32)
}

/// The relation a rule derives from `db`: the join of the answers to its body predicates, cut
/// to the columns the head names, in the head's order, under the head's name and parameters.
pub open spec fn rule_outcome(db: Map<Seq<char>, RelView>, head: PredView, body: Seq<PredView>) -> Result<RelView, EvalError> {
    match body_outcome(db, body, body.len() as int) {
        Err(e) => Err(e),
        Ok(r) => if forall|i: int| 0 <= i < head.1.len() ==> r.scheme.contains(#[trigger] head.1[i]) {
            Ok(
                RelView {
                    name: head.0,
                    scheme: head.1,
                    tuples: r.tuples.map(|t: Tup| pick(t, head_positions(r.scheme, head.1))),
                },
            )
        } else {
            Err(EvalError::UnboundHeadVariable)
        },
    }
}

/// The number of parameters of the first `n` predicates.
pub open spec fn params_count(body: Seq<PredView>, n: int) -> nat
    decreases n,
{
    if n <= 0 {
        0
    } else {
        params_count(body, n - 1) + body[n - 1].1.len()
    }
}

pub proof fn lemma_params_count(body: Seq<PredView>, i: int, n: int)
    requires
        0 <= i < n,
    ensures
        params_count(body, i) + body[i].1.len() <= params_count(body, n),
    decreases n,
{
    if i < n - 1 {
        lemma_params_count(body, i, n - 1);
    }
}

proof fn lemma_body_err(db: Map<Seq<char>, RelView>, body: Seq<PredView>, k: int, n: int)
    requires
        1 <= k <= n,
        body_outcome(db, body, k) is Err,
    ensures
        body_outcome(db, body, n) == body_outcome(db, body, k),
    decreases n - k,
{
    if k < n {
        lemma_body_err(db, body, k, n - 1);
    }
}

/// The first position of `s` in `v`.
fn first_in(v: &Vec<String>, s: &String) -> (r: Option<usize>)
    ensures
        match r {
            Some(j) => j < v.len() && j == first_from(v.deep_view(), s@, 0) && v.deep_view()[j as int] == s@,
            None => !v.deep_view().contains(s@),
        },
{
    let ghost d = v.deep_view();
    let mut i: usize = 0;
    while i < v.len()
        invariant
            i <= v.len(),
            d == v.deep_view(),
            forall|j: int| 0 <= j < i ==> d[j] != s@,
        decreases v.len() - i,
    {
        if v[i] == *s {
            proof {
                lemma_first_from(d, s@, 0, i as int);
                let f = first_from(d, s@, 0);
                if f < i {
                    assert(d[f] != s@);
                }
            }
            return Some(i);
        }
        i = i + 1;
    }
    None
}

/// The relations of a program, by name.
pub type Db = Map<Seq<char>, RelView>;

/// A rule the evaluation can take: its body is not empty, and its parameters can be counted
/// in `u32`.
pub open spec fn rule_fits(r: RuleView) -> bool {
    &&& r.1.len() >= 1
    &&& r.0.1.len() <= u32::MAX
    &&& params_count(r.1, r.1.len() as int) <= u32::MAX
}

/// Evaluating the rule `r` and adding what it derives to the relation of its head: the
/// relations after, the printed lines (the rule's text, then each new tuple), and the number
/// of new tuples.
pub open spec fn rule_step(db: Db, r: RuleView) -> Result<(Db, Seq<Seq<char>>, nat), EvalError> {
    match rule_outcome(db, r.0, r.1) {
        Err(e) => Err(e),
        Ok(rel) => if db.contains_key(rel.name) {
            let added = union_lines(rel.tuples, db[rel.name].scheme, db[rel.name].tuples);
            Ok(
                (
                    db.insert(rel.name, RelView { tuples: db[rel.name].tuples.union(rel.tuples), ..db[rel.name] }),
                    seq![rule_text(r)] + added,
                    added.len(),
                ),
            )
        } else {
            Err(EvalError::MissingRelation)
        },
    }
}

/// One pass over the rules `ids`, in order.
pub open spec fn pass_outcome(db: Db, rules: Seq<RuleView>, ids: Seq<u32>) -> Result<(Db, Seq<Seq<char>>, nat), EvalError>
    decreases ids.len(),
{
    if ids.len() == 0 {
        Ok((db, Seq::empty(), 0))
    } else {
        match pass_outcome(db, rules, ids.drop_last()) {
            Err(e) => Err(e),
            Ok((d, ls, a)) => match rule_step(d, rules[ids.last() as int]) {
                Err(e) => Err(e),
                Ok((d2, ls2, a2)) => Ok((d2, ls + ls2, a + a2)),
            },
        }
    }
}

/// Passes over the rules `ids` until one adds no tuple, from relations holding `total` tuples:
/// the relations after, the printed lines, the number of tuples, and the number of passes.
/// The tuples must be counted in `u32` before and after each pass.
pub open spec fn fixpoint_outcome(db: Db, total: nat, rules: Seq<RuleView>, ids: Seq<u32>) -> Result<(Db, Seq<Seq<char>>, nat, nat), EvalError>
    decreases (u32::MAX as int) - (total as int),
{
    if total > u32::MAX {
        Err(EvalError::TooManyTuples)
    } else {
        match pass_outcome(db, rules, ids) {
            Err(e) => Err(e),
            Ok((d, ls, a)) => if total + a > u32::MAX {
                Err(EvalError::TooManyTuples)
            } else if a == 0 {
                Ok((d, ls, total, 1))
            } else {
                after_passes(fixpoint_outcome(d, total + a, rules, ids), ls, 1)
            },
        }
    }
}

/// The outcome `o` of later passes, after passes that printed `ls`, `n` of them.
pub open spec fn after_passes(o: Result<(Db, Seq<Seq<char>>, nat, nat), EvalError>, ls: Seq<Seq<char>>, n: nat) -> Result<(Db, Seq<Seq<char>>, nat, nat), EvalError> {
    match o {
        Err(e) => Err(e),
        Ok((d, ls2, t, p)) => Ok((d, ls + ls2, t, p + n)),
    }
}

/// The rule an evaluation looks at first in a component: any of its rules (rule 0 for an
/// empty one).
pub open spec fn scc_first(scc: Set<u32>) -> u32 {
    if scc.len() > 0 {
        scc.choose()
    } else {
        0
    }
}

/// Evaluating a component of the dependency graph from relations holding `total` tuples. A
/// single rule that does not depend on itself is evaluated once; any other component is
/// evaluated, its rules in increasing order, until a pass adds nothing. Gives the relations
/// after, the printed lines, and the number of tuples.
pub open spec fn scc_outcome(db: Db, total: nat, rules: Seq<RuleView>, scc: Set<u32>) -> Result<(Db, Seq<Seq<char>>, nat), EvalError> {
    let first = scc_first(scc);
    let dependent = dependency_adj(rules, false)[first].contains(first);
    if scc.len() == 1 && !dependent {
        match rule_step(db, rules[first as int]) {
            Err(e) => Err(e),
            Ok((d, ls, a)) => Ok(
                (d, seq!["SCC: "@ + rule_label(first)] + ls + seq!["1 passes: "@ + rule_label(first)], total + a),
            ),
        }
    } else if scc.len() > 1 || dependent {
        let ids = sorted_ids(scc);
        match fixpoint_outcome(db, total, rules, ids) {
            Err(e) => Err(e),
            Ok((d, ls, t, p)) => Ok(
                (
                    d,
                    seq!["SCC: "@ + edges_text(ids)] + ls + seq![decimal(p) + " passes: "@ + edges_text(ids)],
                    t,
                ),
            ),
        }
    } else {
        Ok((db, Seq::empty(), total))
    }
}

/// Evaluating the components in order: the relations after, the printed lines, and the number
/// of tuples.
pub open spec fn rules_outcome(db: Db, total: nat, rules: Seq<RuleView>, sccs: Seq<Set<u32>>) -> Result<(Db, Seq<Seq<char>>, nat), EvalError>
    decreases sccs.len(),
{
    if sccs.len() == 0 {
        Ok((db, Seq::empty(), total))
    } else {
        match rules_outcome(db, total, rules, sccs.drop_last()) {
            Err(e) => Err(e),
            Ok((d, ls, t)) => match scc_outcome(d, t, rules, sccs.last()) {
                Err(e) => Err(e),
                Ok((d2, ls2, t2)) => Ok((d2, ls + ls2, t2)),
            },
        }
    }
}

/// A component the evaluation can take: its rules exist, and so does the rule it looks at
/// first.
pub open spec fn scc_fits(rules: Seq<RuleView>, scc: Set<u32>) -> bool {
    &&& forall|x: u32| scc.contains(x) ==> (x as int) < rules.len()
    &&& (scc_first(scc) as int) < rules.len()
}

/// Every rule can be evaluated.
pub open spec fn all_rules_fit(rules: Seq<RuleView>) -> bool {
    forall|k: int| 0 <= k < rules.len() ==> #[trigger] rule_fits(rules[k])
}

proof fn lemma_pass_err(db: Db, rules: Seq<RuleView>, ids: Seq<u32>, k: int)
    requires
        0 <= k <= ids.len(),
        pass_outcome(db, rules, ids.take(k)) is Err,
    ensures
        pass_outcome(db, rules, ids) == pass_outcome(db, rules, ids.take(k)),
    decreases ids.len() - k,
{
    if k < ids.len() {
        assert(ids.take(k + 1).drop_last() =~= ids.take(k));
        lemma_pass_err(db, rules, ids, k + 1);
    } else {
        assert(ids.take(k) =~= ids);
    }
}

proof fn lemma_rules_err(db: Db, total: nat, rules: Seq<RuleView>, sccs: Seq<Set<u32>>, k: int)
    requires
        0 <= k <= sccs.len(),
        rules_outcome(db, total, rules, sccs.take(k)) is Err,
    ensures
        rules_outcome(db, total, rules, sccs) == rules_outcome(db, total, rules, sccs.take(k)),
    decreases sccs.len() - k,
{
    if k < sccs.len() {
        assert(sccs.take(k + 1).drop_last() =~= sccs.take(k));
        lemma_rules_err(db, total, rules, sccs, k + 1);
    } else {
        assert(sccs.take(k) =~= sccs);
    }
}

proof fn lemma_after_passes(o: Result<(Db, Seq<Seq<char>>, nat, nat), EvalError>, a: Seq<Seq<char>>, b: Seq<Seq<char>>, m: nat, n: nat)
    ensures
        after_passes(after_passes(o, b, n), a, m) == after_passes(o, a + b, m + n),
{
    match o {
        Err(e) => {},
        Ok((d, ls, t, p)) => {
            assert(a + (b + ls) =~= (a + b) + ls);
        },
    }
}

proof fn lemma_query_error_stays(db: Db, qs: Seq<PredView>, k: int)
    requires
        0 <= k <= qs.len(),
        first_query_error(db, qs.take(k)) is Some,
    ensures
        first_query_error(db, qs) == first_query_error(db, qs.take(k)),
    decreases qs.len() - k,
{
    if k < qs.len() {
        assert(qs.take(k + 1).drop_last() =~= qs.take(k));
        lemma_query_error_stays(db, qs, k + 1);
    } else {
        assert(qs.take(k) =~= qs);
    }
}

/// Whether the rule can be evaluated.
fn rule_fits_exec(r: &Rule) -> (b: bool)
    ensures
        b == rule_fits(r@),
{
    let body = &r.body_predicates;
    if body.len() < 1 || r.head_predicate.parameters.len() > 4294967295 {
        return false;
    }
    let ghost bv = preds_view(body@);
    let mut sum: u64 = 0;
    let mut i: usize = 0;
    while i < body.len()
        invariant
            i <= body.len(),
            bv == preds_view(body@),
            bv == r@.1,
            sum == params_count(bv, i as int),
            sum <= u32::MAX,
        decreases body.len() - i,
    {
        let n = body[i].parameters.len();
        assert(bv[i as int].1.len() == n);
        if n as u64 > 4294967295u64 - sum {
            proof {
                lemma_params_count(bv, i as int, bv.len() as int);
            }
            return false;
        }
        sum = sum + n as u64;
        i = i + 1;
    }
    true
}

/// Every query's parameters can be counted in `u32`.
pub open spec fn queries_fit(queries: Seq<PredView>) -> bool {
    forall|k: int| 0 <= k < queries.len() ==> (#[trigger] queries[k]).1.len() <= u32::MAX
}

/// The first query that cannot be answered, with its error; none when all can.
pub open spec fn first_query_error(db: Db, qs: Seq<PredView>) -> Option<EvalError>
    decreases qs.len(),
{
    if qs.len() == 0 {
        None
    } else {
        match first_query_error(db, qs.drop_last()) {
            Some(e) => Some(e),
            None => match query_outcome(db, qs.last()) {
                Err(e) => Some(e),
                Ok(_) => None,
            },
        }
    }
}

/// `block` is the printed answer to the query `q`: its answer line, then the text of each
/// answer tuple, sorted, without the empty ones, indented.
pub open spec fn query_answer(db: Db, q: PredView, block: Seq<Seq<char>>) -> bool {
    let r = query_result(db[q.0], q.1);
    &&& block.len() >= 1
    &&& block[0] == answer_text(q.0, q.1, r.tuples.len())
    &&& listed_sorted(block.drop_first(), r.scheme, r.tuples)
}

/// The blocks of lines, one after the other.
pub open spec fn concat_lines(bs: Seq<Seq<Seq<char>>>) -> Seq<Seq<char>>
    decreases bs.len(),
{
    if bs.len() == 0 {
        Seq::empty()
    } else {
        concat_lines(bs.drop_last()) + bs.last()
    }
}

/// `lines` are the printed answers to the queries `qs`, in order.
pub open spec fn answers_printed(db: Db, qs: Seq<PredView>, lines: Seq<Seq<char>>) -> bool {
    exists|bs: Seq<Seq<Seq<char>>>|
        #![trigger concat_lines(bs)]
        bs.len() == qs.len() && lines == concat_lines(bs) && forall|k: int|
            0 <= k < qs.len() ==> query_answer(db, qs[k], #[trigger] bs[k])
}

/// The relations when the rules are evaluated: the schemes, then the facts, added to `db`.
pub open spec fn loaded(db: Db, schemes: Seq<PredView>, facts: Seq<PredView>) -> Db {
    with_facts(with_schemes(db, schemes), facts)
}

/// An increasing sequence holding the numbers of `s` is `sorted_ids(s)`.
pub proof fn lemma_sorted_ids(s: Set<u32>, q: Seq<u32>)
    requires
        increasing(q),
        q.to_set() == s,
    ensures
        sorted_ids(s) == q,
{
    let c = sorted_ids(s);
    lemma_increasing_unique(c, q);
}

/// A copy of a predicate.
fn copy_pred(p: &Predicate) -> (r: Predicate)
    ensures
        r@ == p@,
{
    Predicate { name: p.name.clone(), parameters: clone_row(&p.parameters) }
}

/// A copy of a list of predicates.
fn copy_preds(v: &Vec<Predicate>) -> (r: Vec<Predicate>)
    ensures
        preds_view(r@) == preds_view(v@),
{
    let mut r: Vec<Predicate> = Vec::new();
    let mut i: usize = 0;
    while i < v.len()
        invariant
            i <= v.len(),
            preds_view(r@) == preds_view(v@).take(i as int),
        decreases v.len() - i,
    {
        let p = copy_pred(&v[i]);
        let ghost before = r@;
        r.push(p);
        assert(preds_view(r@) =~= preds_view(before).push(p@));
        assert(preds_view(v@).take(i + 1) =~= preds_view(v@).take(i as int).push(v@[i as int]@));
        i = i + 1;
    }
    assert(preds_view(v@).take(v.len() as int) =~= preds_view(v@));
    r
}

/// Adds `more` at the end of `lines`.
fn append_lines(lines: &mut Vec<String>, more: Vec<String>)
    ensures
        final(lines).deep_view() == old(lines).deep_view() + more.deep_view(),
{
    let ghost start = lines.deep_view();
    let mut i: usize = 0;
    while i < more.len()
        invariant
            i <= more.len(),
            lines.deep_view() == start + more.deep_view().take(i as int),
        decreases more.len() - i,
    {
        let ghost before = lines.deep_view();
        lines.push(more[i].clone());
        assert(lines.deep_view() =~= before.push(more.deep_view()[i as int]));
        assert(more.deep_view().take(i + 1) =~= more.deep_view().take(i as int).push(more.deep_view()[i as int]));
        assert(start + more.deep_view().take(i + 1) =~= (start + more.deep_view().take(i as int)).push(more.deep_view()[i as int]));
        i = i + 1;
    }
    assert(more.deep_view().take(more.len() as int) =~= more.deep_view());
}

impl Interpreter {
    /// The schemes of the program.
    pub closed spec fn schemes(&self) -> Seq<PredView> {
        preds_view(self.schemes@)
    }

    /// The facts of the program.
    pub closed spec fn facts(&self) -> Seq<PredView> {
        preds_view(self.facts@)
    }

    /// The rules of the program.
    pub closed spec fn rules(&self) -> Seq<RuleView> {
        rules_view(self.rules@)
    }

    /// The queries of the program.
    pub closed spec fn queries(&self) -> Seq<PredView> {
        preds_view(self.queries@)
    }

    /// The relations built so far, by name.
    pub closed spec fn db(&self) -> Map<Seq<char>, RelView> {
        self.database@
    }

    /// The number of tuples over all relations.
    pub closed spec fn total(&self) -> nat {
        self.database.total()
    }

    /// The relations are well formed.
    pub closed spec fn wf(&self) -> bool {
        self.database.wf()
    }

    /// An interpreter for the program, with no relations yet.
    pub fn new(data: DatalogProgram) -> (r: Interpreter)
        ensures
            r.wf(),
            r.schemes() == data@.schemes,
            r.facts() == data@.facts,
            r.rules() == data@.rules,
            r.queries() == data@.queries,
            r.db() == Map::<Seq<char>, RelView>::empty(),
            r.total() == 0,
    {
        Interpreter {
            schemes: data.schemes,
            facts: data.facts,
            rules: data.rules,
            queries: data.queries,
            database: Database::new(),
        }
    }

    /// Adds an empty relation for each scheme, named after it, with its parameters as columns.
    pub fn make_schemes(&mut self)
        requires
            old(self).wf(),
        ensures
            final(self).wf(),
            final(self).db() == with_schemes(old(self).db(), old(self).schemes()),
            final(self).total() == total_after_schemes(old(self).db(), old(self).total() as int, old(self).schemes()),
            final(self).schemes() == old(self).schemes(),
            final(self).facts() == old(self).facts(),
            final(self).rules() == old(self).rules(),
            final(self).queries() == old(self).queries(),
    {
        let ghost db0 = self.db();
        let ghost s = self.schemes();
        let n = self.schemes.len();
        let mut i: usize = 0;
        assert(s.take(0) =~= Seq::<PredView>::empty());
        while i < n
            invariant
                i <= n,
                n == self.schemes.len(),
                self.wf(),
                s == self.schemes(),
                self.facts() == old(self).facts(),
                self.rules() == old(self).rules(),
                self.queries() == old(self).queries(),
                self.schemes() == old(self).schemes(),
                self.db() == with_schemes(db0, s.take(i as int)),
                db0 == old(self).db(),
                self.total() == total_after_schemes(db0, old(self).total() as int, s.take(i as int)),
            decreases n - i,
        {
            let name = self.schemes[i].name.clone();
            let scheme = clone_row(&self.schemes[i].parameters);
            let result = Relation::new(name, scheme);
            self.database.insert_relation(result);
            assert(s.take(i + 1).drop_last() =~= s.take(i as int));
            i = i + 1;
        }
        assert(s.take(n as int) =~= s);
    }

    /// Adds each fact to the relation of its name, if there is one.
    pub fn make_facts(&mut self)
        requires
            old(self).wf(),
        ensures
            final(self).wf(),
            final(self).db() == with_facts(old(self).db(), old(self).facts()),
            final(self).total() == old(self).total() + facts_added(old(self).db(), old(self).facts()),
            final(self).schemes() == old(self).schemes(),
            final(self).facts() == old(self).facts(),
            final(self).rules() == old(self).rules(),
            final(self).queries() == old(self).queries(),
    {
        let ghost db0 = self.db();
        let ghost s = self.facts();
        let n = self.facts.len();
        let mut i: usize = 0;
        assert(s.take(0) =~= Seq::<PredView>::empty());
        while i < n
            invariant
                i <= n,
                n == self.facts.len(),
                self.wf(),
                s == self.facts(),
                self.facts() == old(self).facts(),
                self.rules() == old(self).rules(),
                self.queries() == old(self).queries(),
                self.schemes() == old(self).schemes(),
                self.db() == with_facts(db0, s.take(i as int)),
                self.total() == old(self).total() + facts_added(db0, s.take(i as int)),
                db0 == old(self).db(),
            decreases n - i,
        {
            let name = self.facts[i].name.clone();
            let fact_items = clone_row(&self.facts[i].parameters);
            self.database.insert_fact(name, fact_items);
            assert(s.take(i + 1).drop_last() =~= s.take(i as int));
            i = i + 1;
        }
        assert(s.take(n as int) =~= s);
    }

    fn query_pred(&mut self, p: &Predicate) -> (r: Result<Relation, EvalError>)
        requires
            old(self).wf(),
            p.parameters.len() <= u32::MAX,
        ensures
            *final(self) == *old(self),
            match r {
                Ok(rel) => rel.wf() && query_outcome(old(self).db(), p@) == Ok::<RelView, EvalError>(rel@),
                Err(e) => query_outcome(old(self).db(), p@) == Err::<RelView, EvalError>(e),
            },
    {
        if !self.database.has_relation(&p.name) {
            return Err(EvalError::MissingRelation);
        }
        if !self.database.query_is_safe(&p.name, &p.parameters) {
            return Err(EvalError::ShortTuple);
        }
        let rel = self.database.query_rule(p.name.clone(), clone_row(&p.parameters));
        Ok(rel)
    }

    /// The relation the rule `head :- body` derives from the relations so far: the body
    /// predicates answered as queries and joined in order, then cut to the head's variables.
    pub fn evaluate_rule(&mut self, head: Predicate, body: Vec<Predicate>) -> (r: Result<Relation, EvalError>)
        requires
            old(self).wf(),
            body.len() >= 1,
            head.parameters.len() <= u32::MAX,
            params_count(preds_view(body@), body.len() as int) <= u32::MAX,
        ensures
            *final(self) == *old(self),
            match r {
                Ok(rel) => rel.wf() && rule_outcome(old(self).db(), head@, preds_view(body@)) == Ok::<RelView, EvalError>(rel@),
                Err(e) => rule_outcome(old(self).db(), head@, preds_view(body@)) == Err::<RelView, EvalError>(e),
            },
    {
        let ghost db = self.db();
        let ghost bv = preds_view(body@);
        proof {
            lemma_params_count(bv, 0, bv.len() as int);
        }
        let mut intermediate = match self.query_pred(&body[0]) {
            Ok(rel) => rel,
            Err(e) => {
                proof {
                    lemma_body_err(db, bv, 1, bv.len() as int);
                }
                return Err(e);
            },
        };
        proof {
            lemma_query_arity(db[bv[0].0], bv[0].1);
        }
        let mut i: usize = 1;
        while i < body.len()
            invariant
                1 <= i <= body.len(),
                self.wf(),
                *self == *old(self),
                db == self.db(),
                bv == preds_view(body@),
                intermediate.wf(),
                body_outcome(db, bv, i as int) == Ok::<RelView, EvalError>(intermediate@),
                arity_ok(intermediate@),
                intermediate@.scheme.len() <= params_count(bv, i as int),
                params_count(bv, bv.len() as int) <= u32::MAX,
            decreases body.len() - i,
        {
            proof {
                lemma_params_count(bv, i as int, bv.len() as int);
            }
            let mut temp = match self.query_pred(&body[i]) {
                Ok(rel) => rel,
                Err(e) => {
                    proof {
                        lemma_body_err(db, bv, i + 1, bv.len() as int);
                    }
                    return Err(e);
                },
            };
            let ghost q = temp@;
            let ghost p = bv[i as int];
            proof {
                lemma_query_arity(db[p.0], p.1);
            }
            let np = body[i].parameters.len();
            let mut j: usize = 0;
            assert(p.1.take(0) + q.scheme.skip(0) =~= q.scheme);
            while j < np
                invariant
                    1 <= i < body.len(),
                    *self == *old(self),
                    db == self.db(),
                    bv == preds_view(body@),
                    body_outcome(db, bv, i as int) == Ok::<RelView, EvalError>(intermediate@),
                    query_outcome(db, p) == Ok::<RelView, EvalError>(q),
                    j <= np,
                    np == p.1.len(),
                    p == bv[i as int],
                    p.1 == body@[i as int].parameters.deep_view(),
                    np <= u32::MAX,
                    temp.wf(),
                    j <= q.scheme.len(),
                    temp@ == (RelView { scheme: p.1.take(j as int) + q.scheme.skip(j as int), ..q }),
                decreases np - j,
            {
                if j >= temp.scheme.len() {
                    proof {
                        assert(temp@.scheme.len() == q.scheme.len());
                        assert(renamed_outcome(db, p) == Err::<RelView, EvalError>(EvalError::RenameOutOfRange));
                        assert(bv[(i + 1) - 1] == p);
                        assert(body_outcome(db, bv, i + 1) == Err::<RelView, EvalError>(EvalError::RenameOutOfRange));
                        lemma_body_err(db, bv, i + 1, bv.len() as int);
                    }
                    return Err(EvalError::RenameOutOfRange);
                }
                temp = temp.rename(j as u32, body[i].parameters[j].clone());
                assert(temp@.scheme =~= p.1.take(j + 1) + q.scheme.skip(j + 1));
                j = j + 1;
            }
            assert(temp@.scheme =~= p.1);
            proof {
                lemma_join_arity(intermediate@, temp@);
            }
            intermediate = intermediate.join(&temp);
            i = i + 1;
        }
        let ghost jr = intermediate@;
        let ghost hp = head.parameters.deep_view();
        let n = head.parameters.len();
        let mut indices: Vec<u32> = Vec::new();
        let mut k: usize = 0;
        while k < n
            invariant
                *self == *old(self),
                db == self.db(),
                bv == preds_view(body@),
                body_outcome(db, bv, bv.len() as int) == Ok::<RelView, EvalError>(jr),
                k <= n,
                n == hp.len(),
                hp == head.parameters.deep_view(),
                jr == intermediate@,
                jr.scheme.len() <= u32::MAX,
                indices@ == head_positions(jr.scheme, hp.take(k as int)),
                forall|m: int| 0 <= m < k ==> jr.scheme.contains(#[trigger] hp[m]),
            decreases n - k,
        {
            match first_in(&intermediate.scheme, &head.parameters[k]) {
                Some(j) => {
                    indices.push(j as u32);
                    assert(indices@ =~= head_positions(jr.scheme, hp.take(k + 1)));
                    assert(jr.scheme[j as int] == hp[k as int]);
                },
                None => {
                    assert(!jr.scheme.contains(hp[k as int]));
                    assert(head@.1 == hp);
                    assert(!(forall|x: int| 0 <= x < hp.len() ==> jr.scheme.contains(#[trigger] hp[x])));
                    return Err(EvalError::UnboundHeadVariable);
                },
            }
            k = k + 1;
        }
        assert(hp.take(n as int) =~= hp);
        proof {
            assert forall|m: int| 0 <= m < indices.len() implies indices[m] < jr.scheme.len() by {
                assert(jr.scheme.contains(hp[m]));
                let w = choose|w: int| 0 <= w < jr.scheme.len() && jr.scheme[w] == hp[m];
                lemma_first_from(jr.scheme, hp[m], 0, w);
            }
        }
        let mut projected = intermediate.project(&indices);
        let ghost pv = projected@;
        let mut m: usize = 0;
        assert(hp.take(0) + pv.scheme.skip(0) =~= pv.scheme);
        while m < n
            invariant
                m <= n,
                n == hp.len(),
                n <= u32::MAX,
                hp == head.parameters.deep_view(),
                pv.scheme.len() == n,
                projected.wf(),
                projected@ == (RelView { scheme: hp.take(m as int) + pv.scheme.skip(m as int), ..pv }),
            decreases n - m,
        {
            assert(projected@.scheme.len() == n);
            projected = projected.rename(m as u32, head.parameters[m].clone());
            assert(projected@.scheme =~= hp.take(m + 1) + pv.scheme.skip(m + 1));
            m = m + 1;
        }
        assert(projected@.scheme =~= hp);
        projected.name = head.name;
        Ok(projected)
    }

    /// Whether the program can be run: every rule has a body and parameters that can be
    /// counted in `u32`, the rules can be numbered in `u32`, and so can each query's
    /// parameters.
    pub fn program_fits(&self) -> (r: bool)
        ensures
            r == (all_rules_fit(self.rules()) && self.rules().len() <= u32::MAX as nat + 1 && queries_fit(
                self.queries(),
            )),
    {
        if self.rules.len() as u64 > 4294967296u64 {
            return false;
        }
        let mut i: usize = 0;
        while i < self.rules.len()
            invariant
                i <= self.rules.len(),
                forall|k: int| 0 <= k < i ==> #[trigger] rule_fits(self.rules()[k]),
            decreases self.rules.len() - i,
        {
            if !rule_fits_exec(&self.rules[i]) {
                assert(!rule_fits(self.rules()[i as int]));
                return false;
            }
            i = i + 1;
        }
        let mut k: usize = 0;
        while k < self.queries.len()
            invariant
                k <= self.queries.len(),
                forall|j: int| 0 <= j < k ==> (#[trigger] self.queries()[j]).1.len() <= u32::MAX,
            decreases self.queries.len() - k,
        {
            if self.queries[k].parameters.len() > 4294967295 {
                assert(self.queries()[k as int].1.len() > u32::MAX);
                return false;
            }
            k = k + 1;
        }
        true
    }

    /// Evaluates rule `id` and adds what it derives to the relation of its head; gives the
    /// rule's text, then the line of each new tuple.
    fn apply_rule(&mut self, id: usize) -> (r: Result<Vec<String>, EvalError>)
        requires
            old(self).wf(),
            id < old(self).rules().len(),
            rule_fits(old(self).rules()[id as int]),
        ensures
            final(self).wf(),
            final(self).schemes() == old(self).schemes(),
            final(self).facts() == old(self).facts(),
            final(self).rules() == old(self).rules(),
            final(self).queries() == old(self).queries(),
            match r {
                Ok(lines) => final(self).total() >= old(self).total() && rule_step(old(self).db(), old(self).rules()[id as int])
                    == Ok::<(Db, Seq<Seq<char>>, nat), EvalError>(
                    (final(self).db(), lines.deep_view(), (final(self).total() - old(self).total()) as nat),
                ),
                Err(e) => rule_step(old(self).db(), old(self).rules()[id as int]) == Err::<(Db, Seq<Seq<char>>, nat), EvalError>(e),
            },
    {
        let ghost rv = self.rules()[id as int];
        let text = self.rules[id].to_string();
        let head = copy_pred(&self.rules[id].head_predicate);
        let body = copy_preds(&self.rules[id].body_predicates);
        assert(head@ == rv.0 && preds_view(body@) == rv.1);
        let new_input = match self.evaluate_rule(head, body) {
            Ok(r) => r,
            Err(e) => {
                return Err(e);
            },
        };
        if !self.database.has_relation(&new_input.name) {
            return Err(EvalError::MissingRelation);
        }
        let added = self.database.unionize(new_input);
        let mut lines: Vec<String> = Vec::new();
        lines.push(text);
        assert(lines.deep_view() =~= seq![rule_text(rv)]);
        append_lines(&mut lines, added);
        Ok(lines)
    }

    /// One pass over the rules `ids`, in order; gives the lines of each rule's evaluation.
    fn run_pass(&mut self, ids: &Vec<u32>) -> (r: Result<Vec<String>, EvalError>)
        requires
            old(self).wf(),
            all_rules_fit(old(self).rules()),
            forall|k: int| 0 <= k < ids.len() ==> (ids@[k] as int) < old(self).rules().len(),
        ensures
            final(self).wf(),
            final(self).schemes() == old(self).schemes(),
            final(self).facts() == old(self).facts(),
            final(self).rules() == old(self).rules(),
            final(self).queries() == old(self).queries(),
            match r {
                Ok(lines) => final(self).total() >= old(self).total() && pass_outcome(old(self).db(), old(self).rules(), ids@)
                    == Ok::<(Db, Seq<Seq<char>>, nat), EvalError>(
                    (final(self).db(), lines.deep_view(), (final(self).total() - old(self).total()) as nat),
                ),
                Err(e) => pass_outcome(old(self).db(), old(self).rules(), ids@) == Err::<(Db, Seq<Seq<char>>, nat), EvalError>(e),
            },
    {
        let ghost db0 = self.db();
        let ghost t0 = self.total();
        let ghost rules = self.rules();
        let mut lines: Vec<String> = Vec::new();
        let mut i: usize = 0;
        assert(ids@.take(0) =~= Seq::<u32>::empty());
        assert(lines.deep_view() =~= Seq::<Seq<char>>::empty());
        while i < ids.len()
            invariant
                i <= ids.len(),
                self.wf(),
                all_rules_fit(rules),
                rules == self.rules(),
                self.schemes() == old(self).schemes(),
                self.facts() == old(self).facts(),
                self.rules() == old(self).rules(),
                self.queries() == old(self).queries(),
                db0 == old(self).db(),
                t0 == old(self).total(),
                forall|k: int| 0 <= k < ids.len() ==> (ids@[k] as int) < rules.len(),
                self.total() >= t0,
                pass_outcome(db0, rules, ids@.take(i as int)) == Ok::<(Db, Seq<Seq<char>>, nat), EvalError>(
                    (self.db(), lines.deep_view(), (self.total() - t0) as nat),
                ),
            decreases ids.len() - i,
        {
            let ghost d = self.db();
            let ghost t = self.total();
            let ghost lv = lines.deep_view();
            assert(ids@.take(i + 1).drop_last() =~= ids@.take(i as int));
            assert(ids@.take(i + 1).last() == ids@[i as int]);
            let step = match self.apply_rule(ids[i] as usize) {
                Ok(l) => l,
                Err(e) => {
                    proof {
                        lemma_pass_err(db0, rules, ids@, i + 1);
                    }
                    return Err(e);
                },
            };
            append_lines(&mut lines, step);
            i = i + 1;
        }
        assert(ids@.take(ids.len() as int) =~= ids@);
        Ok(lines)
    }

    /// Evaluates one component of the dependency graph, `graph` being that graph.
    fn evaluate_scc(&mut self, graph: &mut Graph, scc: &Vec<u32>) -> (r: Result<Vec<String>, EvalError>)
        requires
            old(self).wf(),
            all_rules_fit(old(self).rules()),
            scc@.no_duplicates(),
            scc_fits(old(self).rules(), scc@.to_set()),
            old(graph).wf(),
            old(graph).adj() == dependency_adj(old(self).rules(), false),
        ensures
            *final(graph) == *old(graph),
            final(self).wf(),
            final(self).schemes() == old(self).schemes(),
            final(self).facts() == old(self).facts(),
            final(self).rules() == old(self).rules(),
            final(self).queries() == old(self).queries(),
            match r {
                Ok(lines) => scc_outcome(old(self).db(), old(self).total(), old(self).rules(), scc@.to_set()) == Ok::<
                    (Db, Seq<Seq<char>>, nat),
                    EvalError,
                >((final(self).db(), lines.deep_view(), final(self).total())),
                Err(e) => scc_outcome(old(self).db(), old(self).total(), old(self).rules(), scc@.to_set()) == Err::<
                    (Db, Seq<Seq<char>>, nat),
                    EvalError,
                >(e),
            },
    {
        let ghost rules = self.rules();
        let ghost c = scc@.to_set();
        proof {
            scc@.unique_seq_to_set();
            if scc.len() > 0 {
                assert(c.contains(scc@[0]));
            }
        }
        let first: u32 = if scc.len() > 0 {
            scc[0]
        } else {
            0
        };
        proof {
            if scc.len() == 1 {
                assert(c =~= set![first]);
            }
            assert(c.len() == 1 ==> scc_first(c) == first);
            assert((first as int) < rules.len());
        }
        let dependent = graph.dependent(first);
        let mut lines: Vec<String> = Vec::new();
        if scc.len() == 1 && !dependent {
            let mut head = String::from_str("SCC: ");
            head.append(label(first).as_str());
            lines.push(head);
            proof {
                reveal_strlit("SCC: ");
                assert(lines.deep_view() =~= seq!["SCC: "@ + rule_label(first)]);
            }
            let step = match self.apply_rule(first as usize) {
                Ok(l) => l,
                Err(e) => {
                    return Err(e);
                },
            };
            let ghost ls = step.deep_view();
            append_lines(&mut lines, step);
            let mut tail = String::from_str("1 passes: ");
            tail.append(label(first).as_str());
            let ghost lv = lines.deep_view();
            lines.push(tail);
            proof {
                reveal_strlit("SCC: ");
                reveal_strlit("1 passes: ");
                assert(lines.deep_view() =~= lv.push("1 passes: "@ + rule_label(first)));
                assert(lines.deep_view() =~= seq!["SCC: "@ + rule_label(first)] + ls + seq![
                    "1 passes: "@ + rule_label(first),
                ]);
            }
            Ok(lines)
        } else if scc.len() > 1 || dependent {
            let sorted = sort_ids(scc);
            proof {
                lemma_sorted_ids(scc@.to_set(), sorted@);
                assert forall|k: int| 0 <= k < sorted.len() implies (sorted@[k] as int) < rules.len() by {
                    assert(sorted@.to_set().contains(sorted@[k]));
                    assert(scc@.contains(sorted@[k]));
                }
            }
            let list = ids_text(&sorted);
            let ghost o0 = fixpoint_outcome(self.db(), self.total(), rules, sorted@);
            let ghost t0 = self.total();
            let mut pass_lines: Vec<String> = Vec::new();
            let mut number: u64 = 0;
            let mut fixed = false;
            proof {
                assert(pass_lines.deep_view() =~= Seq::<Seq<char>>::empty());
                match o0 {
                    Err(e) => {},
                    Ok((d, ls, t, p)) => {
                        assert(Seq::<Seq<char>>::empty() + ls =~= ls);
                    },
                }
            }
            while !fixed
                invariant
                    *graph == *old(graph),
                    sorted@ == sorted_ids(scc@.to_set()),
                    list@ == edges_text(sorted@),
                    o0 == fixpoint_outcome(old(self).db(), old(self).total(), rules, sorted@),
                    scc.len() > 1 || dependent,
                    !(scc.len() == 1 && !dependent),
                    c == scc@.to_set(),
                    c.len() == scc.len(),
                    c.len() <= 1 ==> dependent == dependency_adj(rules, false)[scc_first(c)].contains(scc_first(c)),
                    rules == old(self).rules(),
                    self.wf(),
                    all_rules_fit(rules),
                    rules == self.rules(),
                    self.schemes() == old(self).schemes(),
                    self.facts() == old(self).facts(),
                    self.rules() == old(self).rules(),
                    self.queries() == old(self).queries(),
                    forall|k: int| 0 <= k < sorted.len() ==> (sorted@[k] as int) < rules.len(),
                    !fixed ==> number as int <= self.total() as int - t0 as int,
                    !fixed ==> o0 == after_passes(
                        fixpoint_outcome(self.db(), self.total(), rules, sorted@),
                        pass_lines.deep_view(),
                        number as nat,
                    ),
                    fixed ==> o0 == Ok::<(Db, Seq<Seq<char>>, nat, nat), EvalError>(
                        (self.db(), pass_lines.deep_view(), self.total(), number as nat),
                    ),
                decreases (if fixed {
                    0int
                } else {
                    u32::MAX as int - self.total() as int + 1
                }),
            {
                let ghost d = self.db();
                let ghost t = self.total();
                let ghost acc = pass_lines.deep_view();
                if !self.database.total_fits() {
                    return Err(EvalError::TooManyTuples);
                }
                let before = self.database.size_before();
                let step = match self.run_pass(&sorted) {
                    Ok(l) => l,
                    Err(e) => {
                        return Err(e);
                    },
                };
                let ghost ls = step.deep_view();
                append_lines(&mut pass_lines, step);
                if !self.database.total_fits() {
                    return Err(EvalError::TooManyTuples);
                }
                fixed = self.database.check_size(before);
                number = number + 1;
                proof {
                    if !fixed {
                        lemma_after_passes(
                            fixpoint_outcome(self.db(), self.total(), rules, sorted@),
                            acc,
                            ls,
                            (number - 1) as nat,
                            1,
                        );
                    }
                }
            }
            let ghost pl = pass_lines.deep_view();
            let mut head = String::from_str("SCC: ");
            head.append(list.as_str());
            lines.push(head);
            append_lines(&mut lines, pass_lines);
            let mut tail = String::new();
            push_decimal(&mut tail, number);
            tail.append(" passes: ");
            tail.append(list.as_str());
            let ghost lv = lines.deep_view();
            lines.push(tail);
            proof {
                reveal_strlit("SCC: ");
                reveal_strlit(" passes: ");
                assert(lv =~= seq!["SCC: "@ + edges_text(sorted@)] + pl);
                assert(lines.deep_view() =~= seq!["SCC: "@ + edges_text(sorted@)] + pl + seq![
                    decimal(number as nat) + " passes: "@ + edges_text(sorted@),
                ]);
            }
            Ok(lines)
        } else {
            assert(lines.deep_view() =~= Seq::<Seq<char>>::empty());
            Ok(lines)
        }
    }

    /// Evaluates the components in order; gives the printed lines, ending with an empty one.
    pub fn evaluate_rules(&mut self, new_order: Vec<Vec<u32>>) -> (r: Result<Vec<String>, EvalError>)
        requires
            old(self).wf(),
            all_rules_fit(old(self).rules()),
            old(self).rules().len() <= u32::MAX as nat + 1,
            forall|k: int| 0 <= k < new_order.len() ==> (#[trigger] new_order@[k]@).no_duplicates(),
            forall|k: int| 0 <= k < new_order.len() ==> scc_fits(old(self).rules(), (#[trigger] new_order@[k])@.to_set()),
        ensures
            final(self).wf(),
            final(self).schemes() == old(self).schemes(),
            final(self).facts() == old(self).facts(),
            final(self).rules() == old(self).rules(),
            final(self).queries() == old(self).queries(),
            match r {
                Ok(lines) => lines.len() >= 1 && lines.deep_view().last() == Seq::<char>::empty()
                    && rules_outcome(old(self).db(), old(self).total(), old(self).rules(), components_view(new_order@))
                    == Ok::<(Db, Seq<Seq<char>>, nat), EvalError>(
                    (final(self).db(), lines.deep_view().drop_last(), final(self).total()),
                ),
                Err(e) => rules_outcome(old(self).db(), old(self).total(), old(self).rules(), components_view(new_order@))
                    == Err::<(Db, Seq<Seq<char>>, nat), EvalError>(e),
            },
            r is Ok && components_view(new_order@) == rule_components(old(self).rules()) ==> forall|k: int|
                0 <= k < old(self).rules().len() ==> closed_under(final(self).db(), #[trigger] old(self).rules()[k]),
    {
        proof {
            self.database.lemma_finite();
        }
        let ghost db0 = self.db();
        let ghost t0 = self.total();
        let ghost rules = self.rules();
        let ghost sv = components_view(new_order@);
        let mut graph = build_graph(&self.rules, false);
        let mut lines: Vec<String> = Vec::new();
        let mut k: usize = 0;
        assert(sv.take(0) =~= Seq::<Set<u32>>::empty());
        assert(lines.deep_view() =~= Seq::<Seq<char>>::empty());
        while k < new_order.len()
            invariant
                k <= new_order.len(),
                self.wf(),
                all_rules_fit(rules),
                rules == self.rules(),
                self.schemes() == old(self).schemes(),
                self.facts() == old(self).facts(),
                self.rules() == old(self).rules(),
                self.queries() == old(self).queries(),
                db0 == old(self).db(),
                t0 == old(self).total(),
                sv == components_view(new_order@),
                graph.wf(),
                graph.adj() == dependency_adj(rules, false),
                forall|j: int| 0 <= j < new_order.len() ==> (#[trigger] new_order@[j]@).no_duplicates(),
                forall|j: int| 0 <= j < new_order.len() ==> scc_fits(rules, (#[trigger] new_order@[j])@.to_set()),
                rules_outcome(db0, t0, rules, sv.take(k as int)) == Ok::<(Db, Seq<Seq<char>>, nat), EvalError>(
                    (self.db(), lines.deep_view(), self.total()),
                ),
            decreases new_order.len() - k,
        {
            assert(sv.take(k + 1).drop_last() =~= sv.take(k as int));
            assert(sv.take(k + 1).last() == new_order@[k as int]@.to_set());
            let step = match self.evaluate_scc(&mut graph, &new_order[k]) {
                Ok(l) => l,
                Err(e) => {
                    proof {
                        lemma_rules_err(db0, t0, rules, sv, k + 1);
                    }
                    return Err(e);
                },
            };
            append_lines(&mut lines, step);
            k = k + 1;
        }
        assert(sv.take(new_order.len() as int) =~= sv);
        let ghost body = lines.deep_view();
        lines.push(String::new());
        assert(lines.deep_view().drop_last() =~= body);
        proof {
            if components_view(new_order@) == rule_components(rules) {
                assert(sv == rule_components(rules));
                law_evaluation_closed(db0, t0, rules);
            }
        }
        Ok(lines)
    }

    /// The printed answers to the queries, in order: for each, its answer line, then the text
    /// of each answer tuple, sorted.
    pub fn generate_queries(&mut self) -> (r: Result<Vec<String>, EvalError>)
        requires
            old(self).wf(),
            queries_fit(old(self).queries()),
        ensures
            *final(self) == *old(self),
            match r {
                Ok(lines) => first_query_error(old(self).db(), old(self).queries()) == None::<EvalError>
                    && answers_printed(old(self).db(), old(self).queries(), lines.deep_view()),
                Err(e) => first_query_error(old(self).db(), old(self).queries()) == Some(e),
            },
    {
        let ghost db = self.db();
        let ghost qs = self.queries();
        let mut lines: Vec<String> = Vec::new();
        let ghost mut bs: Seq<Seq<Seq<char>>> = Seq::empty();
        let mut k: usize = 0;
        assert(qs.take(0) =~= Seq::<PredView>::empty());
        assert(lines.deep_view() =~= Seq::<Seq<char>>::empty());
        while k < self.queries.len()
            invariant
                k <= self.queries.len(),
                *self == *old(self),
                db == self.db(),
                qs == self.queries(),
                self.wf(),
                queries_fit(qs),
                first_query_error(db, qs.take(k as int)) == None::<EvalError>,
                bs.len() == k,
                lines.deep_view() == concat_lines(bs),
                forall|j: int| 0 <= j < k ==> query_answer(db, qs[j], #[trigger] bs[j]),
            decreases self.queries.len() - k,
        {
            assert(qs.take(k + 1).drop_last() =~= qs.take(k as int));
            assert(qs.take(k + 1).last() == qs[k as int]);
            let q = &self.queries[k];
            assert(q@ == qs[k as int]);
            if !self.database.has_relation(&q.name) {
                proof {
                    lemma_query_error_stays(db, qs, k as int + 1);
                }
                return Err(EvalError::MissingRelation);
            }
            if !self.database.query_is_safe(&q.name, &q.parameters) {
                proof {
                    lemma_query_error_stays(db, qs, k as int + 1);
                }
                return Err(EvalError::ShortTuple);
            }
            let name = q.name.clone();
            let params = clone_row(&q.parameters);
            let block = self.database.query(name, params);
            let ghost bl = block.deep_view();
            let ghost before = bs;
            proof {
                bs = bs.push(bl);
                assert(bs.drop_last() =~= before);
                assert forall|j: int| 0 <= j < k + 1 implies query_answer(db, qs[j], #[trigger] bs[j]) by {
                    if j < k {
                        assert(bs[j] == before[j]);
                    }
                }
            }
            append_lines(&mut lines, block);
            k = k + 1;
        }
        assert(qs.take(qs.len() as int) =~= qs);
        Ok(lines)
    }

    /// Runs the program: sets up an empty relation for each scheme (replacing any relation of
    /// that name) and adds the facts, prints the
    /// dependency graph, evaluates the rules and answers the queries; gives every printed line.
    pub fn run_interpreter(&mut self) -> (r: Result<Vec<String>, EvalError>)
        requires
            old(self).wf(),
            all_rules_fit(old(self).rules()),
            old(self).rules().len() <= u32::MAX as nat + 1,
            queries_fit(old(self).queries()),
        ensures
            final(self).wf(),
            ({
                let rules = old(self).rules();
                let start = with_schemes(old(self).db(), old(self).schemes());
                let db1 = loaded(old(self).db(), old(self).schemes(), old(self).facts());
                let t0 = total_after_schemes(old(self).db(), old(self).total() as int, old(self).schemes());
                let t1 = (t0 + facts_added(start, old(self).facts())) as nat;
                match rules_outcome(db1, t1, rules, rule_components(rules)) {
                    Err(e) => r == Err::<Vec<String>, EvalError>(e),
                    Ok((db2, ls, t2)) => match first_query_error(db2, old(self).queries()) {
                        Some(e) => r == Err::<Vec<String>, EvalError>(e),
                        None => r is Ok && {
                            let lines = r->Ok_0.deep_view();
                            exists|answers: Seq<Seq<char>>|
                                #![trigger answers_printed(db2, old(self).queries(), answers)]
                                answers_printed(db2, old(self).queries(), answers) && lines == seq!["Dependency Graph"@]
                                    + graph_text(rules) + seq!["Rule Evaluation"@] + ls + seq![Seq::empty()]
                                    + seq!["Query Evaluation"@] + answers
                        },
                    },
                }
            }),
            r is Ok ==> forall|k: int|
                0 <= k < old(self).rules().len() ==> closed_under(final(self).db(), #[trigger] old(self).rules()[k]),
    {
        let ghost rules = self.rules();
        self.make_schemes();
        let ghost start = self.db();
        self.make_facts();
        let mut lines: Vec<String> = Vec::new();
        lines.push(String::from_str("Dependency Graph"));
        proof {
            reveal_strlit("Dependency Graph");
            reveal_strlit("Rule Evaluation");
            reveal_strlit("Query Evaluation");
            assert(lines.deep_view() =~= seq!["Dependency Graph"@]);
        }
        let (graph_lines, components) = self.generate_graph();
        let ghost gl = graph_lines.deep_view();
        append_lines(&mut lines, graph_lines);
        let ghost l2 = lines.deep_view();
        lines.push(String::from_str("Rule Evaluation"));
        assert(lines.deep_view() =~= l2.push("Rule Evaluation"@));
        let ghost l3 = lines.deep_view();
        let evaluated = match self.evaluate_rules(components) {
            Ok(l) => l,
            Err(e) => {
                return Err(e);
            },
        };
        let ghost ev = evaluated.deep_view();
        append_lines(&mut lines, evaluated);
        let ghost l4 = lines.deep_view();
        lines.push(String::from_str("Query Evaluation"));
        assert(lines.deep_view() =~= l4.push("Query Evaluation"@));
        let answers = match self.generate_queries() {
            Ok(l) => l,
            Err(e) => {
                return Err(e);
            },
        };
        let ghost av = answers.deep_view();
        let ghost before = lines.deep_view();
        append_lines(&mut lines, answers);
        proof {
            assert(gl == graph_text(rules));
            assert(ev =~= ev.drop_last() + seq![Seq::<char>::empty()]);
            assert(lines.deep_view() =~= seq!["Dependency Graph"@] + graph_text(rules) + seq!["Rule Evaluation"@]
                + ev.drop_last() + seq![Seq::<char>::empty()] + seq!["Query Evaluation"@] + av);
        }
        Ok(lines)
    }

    /// Prints nothing itself: gives the lines of the dependency graph (each rule with the
    /// rules it depends on, then an empty line) and the components to evaluate, in order.
    pub fn generate_graph(&mut self) -> (r: (Vec<String>, Vec<Vec<u32>>))
        requires
            old(self).rules().len() <= u32::MAX as nat + 1,
        ensures
            *final(self) == *old(self),
            r.0.deep_view() == graph_text(old(self).rules()),
            components_view(r.1@) == rule_components(old(self).rules()),
            forall|i: int| 0 <= i < r.1@.len() ==> (#[trigger] r.1@[i])@.no_duplicates(),
            forall|i: int| 0 <= i < r.1@.len() ==> scc_fits(old(self).rules(), (#[trigger] r.1@[i])@.to_set()),
    {
        let mut graph = build_graph(&self.rules, false);
        let mut reverse_graph = build_graph(&self.rules, true);
        let mut lines = graph.to_lines();
        let ghost before = lines.deep_view();
        lines.push(String::new());
        let ghost rules = self.rules();
        proof {
            assert(lines.deep_view() =~= before.push(Seq::empty()));
            assert(before =~= rule_ids(rules.len()).map_values(|id: u32| graph_line(id, dep_edges(rules, id, false))));
        }
        let input = reverse_graph.dfs_forest();
        assert(input@ == Seq::<u32>::empty() + forest_from(dependency_adj(rules, true), rule_ids(rules.len()), 0, Set::empty()).1);
        assert(input@ =~= forest_from(dependency_adj(rules, true), rule_ids(rules.len()), 0, Set::empty()).1);
        proof {
            graph.lemma_domain();
        }
        let ghost adj = graph.adj();
        let sccs = graph.dfs_forest_og(input);
        proof {
            lemma_components_within(adj, input@, Set::empty(), Set::empty());
            let n = rules.len();
            assert forall|i: int| 0 <= i < sccs@.len() implies scc_fits(rules, (#[trigger] sccs@[i])@.to_set()) by {
                let c = sccs@[i]@.to_set();
                assert(components_view(sccs@)[i] == c);
                assert(has_node(c));
                assert forall|x: u32| c.contains(x) implies (x as int) < n by {
                    assert(adj.dom().contains(x));
                    assert(rule_ids(n).to_set().contains(x));
                    let m = choose|m: int| 0 <= m < rule_ids(n).len() && rule_ids(n)[m] == x;
                }
                let y = choose|y: u32| c.contains(y);
                assert(c.len() > 0);
                assert(c.contains(c.choose()));
            }
        }
        (lines, sccs)
    }
}

/// The source of the edge between rules `k` and `j` (reversed when `reverse`).
spec fn edge_from(k: u32, j: u32, reverse: bool) -> int {
    if reverse {
        j as int
    } else {
        k as int
    }
}

/// The target of the edge between rules `k` and `j` (reversed when `reverse`).
spec fn edge_to(k: u32, j: u32, reverse: bool) -> int {
    if reverse {
        k as int
    } else {
        j as int
    }
}

/// Rule `f` depends on rule `t` through a body predicate that the search has passed, the
/// search being at body predicate `b` of rule `from`, head of rule `to`.
spec fn edge_before(rules: Seq<RuleView>, f: int, t: int, from: int, b: int, to: int) -> bool {
    exists|c: int|
        0 <= c < rules[f].1.len() && rules[f].1[c].0 == rules[t].0.0 && (f < from || (f == from && c < b) || (
        f == from && c == b && t < to))
}

/// The edges of rule `k` once the search has passed every triple before (`from`, `b`, `to`).
spec fn partial_set(rules: Seq<RuleView>, k: u32, reverse: bool, from: int, b: int, to: int) -> Set<u32> {
    Set::new(
        |j: u32|
            (j as int) < rules.len() && edge_before(
                rules,
                edge_from(k, j, reverse),
                edge_to(k, j, reverse),
                from,
                b,
                to,
            ),
    )
}

proof fn lemma_edge_step(rules: Seq<RuleView>, f: int, t: int, from: int, b: int, to: int)
    requires
        0 <= b < rules[from].1.len(),
    ensures
        edge_before(rules, f, t, from, b, to + 1) == (edge_before(rules, f, t, from, b, to) || (f == from && t
            == to && rules[from].1[b].0 == rules[to].0.0)),
{
    if f == from && t == to && rules[from].1[b].0 == rules[to].0.0 {
        assert(0 <= b < rules[f].1.len() && rules[f].1[b].0 == rules[t].0.0);
    }
}

proof fn lemma_edge_next_body(rules: Seq<RuleView>, f: int, t: int, from: int, b: int, n: int)
    requires
        0 <= t < n,
    ensures
        edge_before(rules, f, t, from, b, n) == edge_before(rules, f, t, from, b + 1, 0),
{
    if edge_before(rules, f, t, from, b + 1, 0) {
        let c = choose|c: int|
            0 <= c < rules[f].1.len() && rules[f].1[c].0 == rules[t].0.0 && (f < from || (f == from && c < b
                + 1) || (f == from && c == b + 1 && t < 0));
        assert(0 <= c < rules[f].1.len() && rules[f].1[c].0 == rules[t].0.0 && (f < from || (f == from && c < b)
            || (f == from && c == b && t < n)));
    }
    if edge_before(rules, f, t, from, b, n) {
        let c = choose|c: int|
            0 <= c < rules[f].1.len() && rules[f].1[c].0 == rules[t].0.0 && (f < from || (f == from && c < b) || (
            f == from && c == b && t < n));
        assert(0 <= c < rules[f].1.len() && rules[f].1[c].0 == rules[t].0.0 && (f < from || (f == from && c < b
            + 1) || (f == from && c == b + 1 && t < 0)));
    }
}

proof fn lemma_edge_next_rule(rules: Seq<RuleView>, f: int, t: int, from: int)
    requires
        0 <= t,
    ensures
        edge_before(rules, f, t, from, rules[from].1.len() as int, 0) == edge_before(rules, f, t, from + 1, 0, 0),
{
    let nb = rules[from].1.len() as int;
    if edge_before(rules, f, t, from + 1, 0, 0) {
        let c = choose|c: int|
            0 <= c < rules[f].1.len() && rules[f].1[c].0 == rules[t].0.0 && (f < from + 1 || (f == from + 1 && c
                < 0) || (f == from + 1 && c == 0 && t < 0));
        assert(0 <= c < rules[f].1.len() && rules[f].1[c].0 == rules[t].0.0 && (f < from || (f == from && c < nb)
            || (f == from && c == nb && t < 0)));
    }
    if edge_before(rules, f, t, from, nb, 0) {
        let c = choose|c: int|
            0 <= c < rules[f].1.len() && rules[f].1[c].0 == rules[t].0.0 && (f < from || (f == from && c < nb) || (
            f == from && c == nb && t < 0));
        assert(0 <= c < rules[f].1.len() && rules[f].1[c].0 == rules[t].0.0 && (f < from + 1 || (f == from + 1
            && c < 0) || (f == from + 1 && c == 0 && t < 0)));
    }
}

proof fn lemma_edge_all(rules: Seq<RuleView>, f: int, t: int, n: int)
    requires
        0 <= f < n,
    ensures
        edge_before(rules, f, t, n, 0, 0) == depends_on(rules, f, t),
{
    if depends_on(rules, f, t) {
        let c = choose|c: int| 0 <= c < rules[f].1.len() && rules[f].1[c].0 == rules[t].0.0;
        assert(0 <= c < rules[f].1.len() && rules[f].1[c].0 == rules[t].0.0 && (f < n || (f == n && c < 0) || (f
            == n && c == 0 && t < 0)));
    }
}

proof fn lemma_edge_none(rules: Seq<RuleView>, f: int, t: int)
    requires
        0 <= f,
        0 <= t,
    ensures
        !edge_before(rules, f, t, 0, 0, 0),
{
}

/// The dependency graph of the rules, or its reverse: an edge from each rule to each rule whose
/// head names a predicate of its body.
fn build_graph(rules: &Vec<Rule>, reverse: bool) -> (g: Graph)
    requires
        rules.len() <= u32::MAX as nat + 1,
    ensures
        g.wf(),
        g.ids() == rule_ids(rules.len() as nat),
        g.adj() == dependency_adj(rules_view(rules@), reverse),
        g.visited() == Set::<u32>::empty(),
        g.finished() == Seq::<u32>::empty(),
        g.collected() == Set::<u32>::empty(),
{
    let ghost rv = rules_view(rules@);
    let n = rules.len();
    let mut graph = Graph::new(rules.clone());
    assert(graph.ids() =~= rule_ids(n as nat));
    let mut from_id: usize = 0;
    assert forall|k: u32| (k as int) < n implies partial_set(rv, k, reverse, 0, 0, 0) =~= Set::<u32>::empty() by {
        assert forall|y: u32| !(#[trigger] partial_set(rv, k, reverse, 0, 0, 0).contains(y)) by {
            lemma_edge_none(rv, edge_from(k, y, reverse), edge_to(k, y, reverse));
        }
    }
    while from_id < n
        invariant
            from_id <= n,
            n == rules.len(),
            n <= u32::MAX as nat + 1,
            rv == rules_view(rules@),
            graph.wf(),
            graph.ids() == rule_ids(n as nat),
            graph.visited() == Set::<u32>::empty(),
            graph.finished() == Seq::<u32>::empty(),
            graph.collected() == Set::<u32>::empty(),
            forall|k: u32| graph.adj().contains_key(k) <==> (k as int) < n,
            forall|k: u32|
                (k as int) < n ==> (#[trigger] graph.adj()[k]).to_set() == partial_set(rv, k, reverse, from_id as int, 0, 0),
        decreases n - from_id,
    {
        let from_rule = &rules[from_id];
        let nb = from_rule.body_predicates.len();
        let mut b: usize = 0;
        while b < nb
            invariant
                from_id < n,
                b <= nb,
                nb == rules@[from_id as int].body_predicates.len(),
                n == rules.len(),
                n <= u32::MAX as nat + 1,
                rv == rules_view(rules@),
                graph.wf(),
                graph.ids() == rule_ids(n as nat),
                graph.visited() == Set::<u32>::empty(),
                graph.finished() == Seq::<u32>::empty(),
                graph.collected() == Set::<u32>::empty(),
                forall|k: u32| graph.adj().contains_key(k) <==> (k as int) < n,
                forall|k: u32|
                    (k as int) < n ==> (#[trigger] graph.adj()[k]).to_set() == partial_set(rv, k, reverse, from_id as int, b as int, 0),
            decreases nb - b,
        {
            let mut to_id: usize = 0;
            while to_id < n
                invariant
                    from_id < n,
                    b < nb,
                    to_id <= n,
                    nb == rules@[from_id as int].body_predicates.len(),
                    n == rules.len(),
                    n <= u32::MAX as nat + 1,
                    rv == rules_view(rules@),
                    graph.wf(),
                    graph.ids() == rule_ids(n as nat),
                    graph.visited() == Set::<u32>::empty(),
                    graph.finished() == Seq::<u32>::empty(),
                    graph.collected() == Set::<u32>::empty(),
                    forall|k: u32| graph.adj().contains_key(k) <==> (k as int) < n,
                    forall|k: u32|
                        (k as int) < n ==> (#[trigger] graph.adj()[k]).to_set() == partial_set(
                            rv,
                            k,
                            reverse,
                            from_id as int,
                            b as int,
                            to_id as int,
                        ),
                decreases n - to_id,
            {
                let matched = rules[from_id].body_predicates[b].name == rules[to_id].head_predicate.name;
                let ghost g0 = graph;
                let (src, dst) = if reverse {
                    (to_id as u32, from_id as u32)
                } else {
                    (from_id as u32, to_id as u32)
                };
                if matched {
                    graph.add_edge(src, dst);
                    proof {
                        lemma_insert_sorted(g0.ids(), src, src as int);
                        assert(graph.ids() =~= g0.ids());
                    }
                }
                proof {
                    assert forall|k: u32| (k as int) < n implies (#[trigger] graph.adj()[k]).to_set()
                        == partial_set(rv, k, reverse, from_id as int, b as int, to_id + 1) by {
                        let old_set = partial_set(rv, k, reverse, from_id as int, b as int, to_id as int);
                        let new_set = partial_set(rv, k, reverse, from_id as int, b as int, to_id + 1);
                        assert(rv[from_id as int].1[b as int].0 == rules@[from_id as int].body_predicates@[b as int].name@);
                        assert(rv[to_id as int].0.0 == rules@[to_id as int].head_predicate.name@);
                        assert(rv[from_id as int].1.len() == nb);
                        assert forall|y: u32| new_set.contains(y) <==> old_set.contains(y) || (matched && k == src
                            && y == dst) by {
                            lemma_edge_step(rv, edge_from(k, y, reverse), edge_to(k, y, reverse), from_id as int, b as int, to_id as int);
                        }
                        if matched && k == src {
                            assert forall|y: u32| graph.adj()[k].contains(y) <==> g0.adj()[k].contains(y) || y == dst by {
                                lemma_contains_insert_sorted(g0.adj()[k], dst, y);
                            }
                            assert(graph.adj()[k].to_set() =~= g0.adj()[k].to_set().insert(dst));
                            assert(new_set =~= old_set.insert(dst));
                        } else {
                            assert(graph.adj()[k] == g0.adj()[k]);
                            assert(new_set =~= old_set);
                        }
                    }
                }
                to_id = to_id + 1;
            }
            proof {
                assert forall|k: u32| (k as int) < n implies partial_set(rv, k, reverse, from_id as int, b as int, n as int)
                    =~= partial_set(rv, k, reverse, from_id as int, b + 1, 0) by {
                    assert forall|y: u32| (y as int) < n implies #[trigger] edge_before(rv, edge_from(k, y, reverse), edge_to(k, y, reverse), from_id as int, b as int, n as int)
                        == edge_before(rv, edge_from(k, y, reverse), edge_to(k, y, reverse), from_id as int, b + 1, 0) by {
                        lemma_edge_next_body(rv, edge_from(k, y, reverse), edge_to(k, y, reverse), from_id as int, b as int, n as int);
                    }
                }
            }
            b = b + 1;
        }
        proof {
            assert(rv[from_id as int].1.len() == nb);
            assert forall|k: u32| (k as int) < n implies partial_set(rv, k, reverse, from_id as int, nb as int, 0)
                =~= partial_set(rv, k, reverse, from_id + 1, 0, 0) by {
                assert forall|y: u32| (y as int) < n implies #[trigger] edge_before(rv, edge_from(k, y, reverse), edge_to(k, y, reverse), from_id as int, nb as int, 0)
                    == edge_before(rv, edge_from(k, y, reverse), edge_to(k, y, reverse), from_id + 1, 0, 0) by {
                    lemma_edge_next_rule(rv, edge_from(k, y, reverse), edge_to(k, y, reverse), from_id as int);
                }
            }
        }
        from_id = from_id + 1;
    }
    proof {
        graph.lemma_adj_increasing();
        assert forall|k: u32| #[trigger] graph.adj().contains_key(k) implies graph.adj()[k] == dep_edges(rv, k, reverse) by {
            assert(partial_set(rv, k, reverse, n as int, 0, 0) =~= dep_set(rv, k, reverse)) by {
                assert forall|y: u32| (y as int) < n implies #[trigger] edge_before(rv, edge_from(k, y, reverse), edge_to(k, y, reverse), n as int, 0, 0)
                    == depends_on(rv, edge_from(k, y, reverse), edge_to(k, y, reverse)) by {
                    lemma_edge_all(rv, edge_from(k, y, reverse), edge_to(k, y, reverse), n as int);
                }
            }
            lemma_sorted_ids(dep_set(rv, k, reverse), graph.adj()[k]);
        }
        assert(graph.adj() =~= dependency_adj(rv, reverse));
    }
    graph
}

} // verus!
