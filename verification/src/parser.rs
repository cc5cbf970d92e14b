use vstd::prelude::*;
use vstd::string::*;
use crate::scanner::{TokenView, tokens_view};
use crate::text::{join, join_strings};
use crate::token::{Token, TokenType};

verus! {

/// A predicate as values: its name and its parameters.
pub type PredView = (Seq<char>, Seq<Seq<char>>);

/// A rule as values: its head and its body.
pub type RuleView = (PredView, Seq<PredView>);

/// A parsed program as values.
pub struct ProgView {
    pub schemes: Seq<PredView>,
    pub facts: Seq<PredView>,
    pub rules: Seq<RuleView>,
    pub queries: Seq<PredView>,
    pub domain: Seq<Seq<char>>,
}

/// A predicate: a name applied to parameters.
#[derive(Clone)]
pub struct Predicate {
    pub name: String,
    pub parameters: Vec<String>,
}

/// A rule: the head holds where every predicate of the body holds.
#[derive(Clone)]
pub struct Rule {
    pub head_predicate: Predicate,
    pub body_predicates: Vec<Predicate>,
}

/// A parsed program: schemes, facts, rules, queries, and the strings the facts use.
pub struct DatalogProgram {
    pub schemes: Vec<Predicate>,
    pub facts: Vec<Predicate>,
    pub rules: Vec<Rule>,
    pub queries: Vec<Predicate>,
    pub domain: Vec<String>,
}

impl View for Predicate {
    type V = PredView;

    open spec fn view(&self) -> PredView {
        (self.name@, self.parameters.deep_view())
    }
}

/// The values of a sequence of predicates.
pub open spec fn preds_view(s: Seq<Predicate>) -> Seq<PredView> {
    s.map_values(|p: Predicate| p@)
}

impl View for Rule {
    type V = RuleView;

    open spec fn view(&self) -> RuleView {
        (self.head_predicate@, preds_view(self.body_predicates@))
    }
}

/// The values of a sequence of rules.
pub open spec fn rules_view(s: Seq<Rule>) -> Seq<RuleView> {
    s.map_values(|r: Rule| r@)
}

impl View for DatalogProgram {
    type V = ProgView;

    open spec fn view(&self) -> ProgView {
        ProgView {
            schemes: preds_view(self.schemes@),
            facts: preds_view(self.facts@),
            rules: rules_view(self.rules@),
            queries: preds_view(self.queries@),
            domain: self.domain.deep_view(),
        }
    }
}

/// The text of a predicate: `name(p1,p2,...)`.
pub open spec fn predicate_text(p: PredView) -> Seq<char> {
    p.0 + "("@ + join(p.1, ","@) + ")"@
}

/// The text of a rule: `head :- body1,body2,....`
pub open spec fn rule_text(r: RuleView) -> Seq<char> {
    predicate_text(r.0) + " :- "@ + join(r.1.map_values(|p: PredView| predicate_text(p)), ","@) + "."@
}

/// The domain with `v` added, if it is new.
pub open spec fn domain_add(d: Seq<Seq<char>>, v: Seq<char>) -> Seq<Seq<char>> {
    if d.contains(v) {
        d
    } else {
        d.push(v)
    }
}

// ---------------------------------------------------------------------------
// The grammar. Each function reads the tokens from position `p` and gives the
// position after what it read, with the value built; or the position of the
// token it could not accept. A position at the end of the tokens stands for a
// read past the last token.
// ---------------------------------------------------------------------------

/// The token at `p` is of kind `ty`.
pub open spec fn tok_is(ts: Seq<TokenView>, p: int, ty: TokenType) -> bool {
    0 <= p < ts.len() && ts[p].0 == ty
}

/// `idList -> , Id idList | ε`, adding each identifier to the predicate.
pub open spec fn spec_id_list(ts: Seq<TokenView>, p: int, pred: PredView) -> Result<(int, PredView), int>
    decreases ts.len() - p,
{
    if p < 0 || p >= ts.len() {
        Err(p)
    } else if ts[p].0 == TokenType::Comma {
        if tok_is(ts, p + 1, TokenType::Id) {
            spec_id_list(ts, p + 2, (pred.0, pred.1.push(ts[p + 1].1)))
        } else {
            Err(p + 1)
        }
    } else {
        Ok((p, pred))
    }
}

/// `scheme -> Id ( Id idList ) | ε`, adding the scheme to the program.
pub open spec fn spec_scheme(ts: Seq<TokenView>, p: int, prog: ProgView) -> Result<(int, ProgView), int> {
    if p < 0 || p >= ts.len() {
        Err(p)
    } else if ts[p].0 != TokenType::Id {
        Ok((p, prog))
    } else if !tok_is(ts, p + 1, TokenType::LeftParen) {
        Err(p + 1)
    } else if !tok_is(ts, p + 2, TokenType::Id) {
        Err(p + 2)
    } else {
        match spec_id_list(ts, p + 3, (ts[p].1, seq![ts[p + 2].1])) {
            Err(e) => Err(e),
            Ok((q, pred)) => if tok_is(ts, q, TokenType::RightParen) {
                Ok((q + 1, ProgView { schemes: prog.schemes.push(pred), ..prog }))
            } else {
                Err(q)
            },
        }
    }
}

/// From `p` on, the tokens are `, Id` once for each of `ids`, with those identifiers in order,
/// and then a token that is not a comma.
pub open spec fn comma_ids(ts: Seq<TokenView>, p: int, ids: Seq<Seq<char>>) -> bool {
    &&& 0 <= p
    &&& p + 2 * ids.len() < ts.len()
    &&& ts[p + 2 * ids.len()].0 != TokenType::Comma
    &&& forall|k: int| #![trigger ids[k]] 0 <= k < ids.len() ==> ts[p + 2 * k].0 == TokenType::Comma && ts[p + 2 * k + 1].0
        == TokenType::Id && ts[p + 2 * k + 1].1 == ids[k]
}

/// Law: an identifier list reads every `, Id` pair, however many there are: it adds all their
/// identifiers, in order, to the predicate and stops at the first token that is not a comma.
pub proof fn law_id_list_reads_all(ts: Seq<TokenView>, p: int, pred: PredView, ids: Seq<Seq<char>>)
    requires
        comma_ids(ts, p, ids),
    ensures
        spec_id_list(ts, p, pred) == Ok::<(int, PredView), int>((p + 2 * ids.len(), (pred.0, pred.1 + ids))),
    decreases ids.len(),
{
    if ids.len() == 0 {
        assert(pred.1 + ids =~= pred.1);
    } else {
        let rest = ids.drop_first();
        let q = p + 2;
        assert(ts[p + 2 * 0].0 == TokenType::Comma && ts[p + 2 * 0 + 1].1 == ids[0]);
        assert forall|k: int| 0 <= k < rest.len() implies #[trigger] ts[q + 2 * k].0 == TokenType::Comma
            && ts[q + 2 * k + 1].0 == TokenType::Id && ts[q + 2 * k + 1].1 == rest[k] by {
            assert(rest[k] == ids[k + 1]);
            assert(p + 2 * (k + 1) == q + 2 * k);
        }
        assert(q + 2 * rest.len() == p + 2 * ids.len());
        assert(comma_ids(ts, q, rest));
        law_id_list_reads_all(ts, p + 2, (pred.0, pred.1.push(ids[0])), rest);
        assert(pred.1.push(ids[0]) + rest =~= pred.1 + ids);
    }
}

/// Law: a scheme `Id ( Id , Id , ... )` with any number of identifiers in its list is added to
/// the program as a predicate of that name whose parameters are exactly those identifiers, in
/// order.
pub proof fn law_scheme_reads_all(ts: Seq<TokenView>, p: int, prog: ProgView, first: Seq<char>, ids: Seq<Seq<char>>)
    requires
        0 <= p,
        p + 2 < ts.len(),
        ts[p].0 == TokenType::Id,
        ts[p + 1].0 == TokenType::LeftParen,
        ts[p + 2].0 == TokenType::Id,
        ts[p + 2].1 == first,
        comma_ids(ts, p + 3, ids),
        ts[p + 3 + 2 * ids.len()].0 == TokenType::RightParen,
    ensures
        spec_scheme(ts, p, prog) == Ok::<(int, ProgView), int>(
            (p + 4 + 2 * ids.len(), ProgView { schemes: prog.schemes.push((ts[p].1, seq![first] + ids)), ..prog }),
        ),
{
    law_id_list_reads_all(ts, p + 3, (ts[p].1, seq![first]), ids);
}

pub proof fn lemma_id_list_advances(ts: Seq<TokenView>, p: int, pred: PredView)
    ensures
        spec_id_list(ts, p, pred) matches Ok((q, x)) ==> p <= q < ts.len(),
    decreases ts.len() - p,
{
    if 0 <= p < ts.len() && ts[p].0 == TokenType::Comma && tok_is(ts, p + 1, TokenType::Id) {
        lemma_id_list_advances(ts, p + 2, (pred.0, pred.1.push(ts[p + 1].1)));
    }
}

/// `schemeList -> scheme schemeList | ε`.
pub open spec fn spec_scheme_list(ts: Seq<TokenView>, p: int, prog: ProgView) -> Result<(int, ProgView), int>
    decreases ts.len() - p,
{
    if p < 0 || p >= ts.len() {
        Err(p)
    } else if ts[p].0 != TokenType::Id {
        Ok((p, prog))
    } else {
        match spec_scheme(ts, p, prog) {
            Err(e) => Err(e),
            Ok((q, next)) => {
                proof {
                    lemma_id_list_advances(ts, p + 3, (ts[p].1, seq![ts[p + 2].1]));
                }
                spec_scheme_list(ts, q, next)
            },
        }
    }
}

/// `stringList -> , String stringList | ε`, adding each string to the fact and the domain.
pub open spec fn spec_string_list(ts: Seq<TokenView>, p: int, acc: (PredView, ProgView)) -> Result<(int, (PredView, ProgView)), int>
    decreases ts.len() - p,
{
    if p < 0 || p >= ts.len() {
        Err(p)
    } else if ts[p].0 == TokenType::Comma {
        if tok_is(ts, p + 1, TokenType::String) {
            let v = ts[p + 1].1;
            spec_string_list(
                ts,
                p + 2,
                ((acc.0.0, acc.0.1.push(v)), ProgView { domain: domain_add(acc.1.domain, v), ..acc.1 }),
            )
        } else {
            Err(p + 1)
        }
    } else {
        Ok((p, acc))
    }
}

pub proof fn lemma_string_list_advances(ts: Seq<TokenView>, p: int, acc: (PredView, ProgView))
    ensures
        spec_string_list(ts, p, acc) matches Ok((q, x)) ==> p <= q < ts.len(),
    decreases ts.len() - p,
{
    if 0 <= p < ts.len() && ts[p].0 == TokenType::Comma && tok_is(ts, p + 1, TokenType::String) {
        let v = ts[p + 1].1;
        lemma_string_list_advances(
            ts,
            p + 2,
            ((acc.0.0, acc.0.1.push(v)), ProgView { domain: domain_add(acc.1.domain, v), ..acc.1 }),
        );
    }
}

/// `fact -> Id ( String stringList ) . | ε`, adding the fact and its strings to the program.
pub open spec fn spec_fact(ts: Seq<TokenView>, p: int, prog: ProgView) -> Result<(int, ProgView), int> {
    if p < 0 || p >= ts.len() {
        Err(p)
    } else if ts[p].0 != TokenType::Id {
        Ok((p, prog))
    } else if !tok_is(ts, p + 1, TokenType::LeftParen) {
        Err(p + 1)
    } else if !tok_is(ts, p + 2, TokenType::String) {
        Err(p + 2)
    } else {
        let v = ts[p + 2].1;
        match spec_string_list(ts, p + 3, ((ts[p].1, seq![v]), ProgView { domain: domain_add(prog.domain, v), ..prog })) {
            Err(e) => Err(e),
            Ok((q, (pred, next))) => if !tok_is(ts, q, TokenType::RightParen) {
                Err(q)
            } else if !tok_is(ts, q + 1, TokenType::Period) {
                Err(q + 1)
            } else {
                Ok((q + 2, ProgView { facts: next.facts.push(pred), ..next }))
            },
        }
    }
}

/// `factList -> fact factList | ε`.
pub open spec fn spec_fact_list(ts: Seq<TokenView>, p: int, prog: ProgView) -> Result<(int, ProgView), int>
    decreases ts.len() - p,
{
    if p < 0 || p >= ts.len() {
        Err(p)
    } else if ts[p].0 != TokenType::Id {
        Ok((p, prog))
    } else {
        match spec_fact(ts, p, prog) {
            Err(e) => Err(e),
            Ok((q, next)) => {
                proof {
                    let v = ts[p + 2].1;
                    lemma_string_list_advances(
                        ts,
                        p + 3,
                        ((ts[p].1, seq![v]), ProgView { domain: domain_add(prog.domain, v), ..prog }),
                    );
                }
                spec_fact_list(ts, q, next)
            },
        }
    }
}

/// `parameter -> String | Id`, adding it to the predicate.
pub open spec fn spec_parameter(ts: Seq<TokenView>, p: int, pred: PredView) -> Result<(int, PredView), int> {
    if p < 0 || p >= ts.len() {
        Err(p)
    } else if ts[p].0 == TokenType::String || ts[p].0 == TokenType::Id {
        Ok((p + 1, (pred.0, pred.1.push(ts[p].1))))
    } else {
        Err(p)
    }
}

/// `parameterList -> , parameter parameterList | ε`.
pub open spec fn spec_parameter_list(ts: Seq<TokenView>, p: int, pred: PredView) -> Result<(int, PredView), int>
    decreases ts.len() - p,
{
    if p < 0 || p >= ts.len() {
        Err(p)
    } else if ts[p].0 == TokenType::Comma {
        match spec_parameter(ts, p + 1, pred) {
            Err(e) => Err(e),
            Ok((q, next)) => spec_parameter_list(ts, q, next),
        }
    } else {
        Ok((p, pred))
    }
}

pub proof fn lemma_parameter_list_advances(ts: Seq<TokenView>, p: int, pred: PredView)
    ensures
        spec_parameter_list(ts, p, pred) matches Ok((q, x)) ==> p <= q < ts.len(),
    decreases ts.len() - p,
{
    if 0 <= p < ts.len() && ts[p].0 == TokenType::Comma {
        if let Ok((q, next)) = spec_parameter(ts, p + 1, pred) {
            lemma_parameter_list_advances(ts, q, next);
        }
    }
}

/// `predicate -> Id ( parameter parameterList )`, adding the parameters to `pred`.
pub open spec fn spec_predicate(ts: Seq<TokenView>, p: int, pred: PredView) -> Result<(int, PredView), int> {
    if p < 0 || p >= ts.len() {
        Err(p)
    } else if ts[p].0 != TokenType::Id {
        Err(p)
    } else if !tok_is(ts, p + 1, TokenType::LeftParen) {
        Err(p + 1)
    } else {
        match spec_parameter(ts, p + 2, pred) {
            Err(e) => Err(e),
            Ok((q, x)) => match spec_parameter_list(ts, q, x) {
                Err(e) => Err(e),
                Ok((q2, y)) => if tok_is(ts, q2, TokenType::RightParen) {
                    Ok((q2 + 1, y))
                } else {
                    Err(q2)
                },
            },
        }
    }
}

/// `predicate` in a rule body, adding the predicate to the body.
pub open spec fn spec_predicate_rule(ts: Seq<TokenView>, p: int, rule: RuleView) -> Result<(int, RuleView), int> {
    if p < 0 || p >= ts.len() {
        Err(p)
    } else if ts[p].0 != TokenType::Id {
        Err(p)
    } else if !tok_is(ts, p + 1, TokenType::LeftParen) {
        Err(p + 1)
    } else {
        match spec_parameter(ts, p + 2, (ts[p].1, Seq::empty())) {
            Err(e) => Err(e),
            Ok((q, x)) => match spec_parameter_list(ts, q, x) {
                Err(e) => Err(e),
                Ok((q2, y)) => if tok_is(ts, q2, TokenType::RightParen) {
                    Ok((q2 + 1, (rule.0, rule.1.push(y))))
                } else {
                    Err(q2)
                },
            },
        }
    }
}

pub proof fn lemma_predicate_rule_advances(ts: Seq<TokenView>, p: int, rule: RuleView)
    ensures
        spec_predicate_rule(ts, p, rule) matches Ok((q, x)) ==> p < q <= ts.len(),
{
    if 0 <= p < ts.len() && ts[p].0 == TokenType::Id && tok_is(ts, p + 1, TokenType::LeftParen) {
        if let Ok((q, x)) = spec_parameter(ts, p + 2, (ts[p].1, Seq::empty())) {
            lemma_parameter_list_advances(ts, q, x);
        }
    }
}

/// `predicateList -> , predicate predicateList | ε`.
pub open spec fn spec_predicate_list(ts: Seq<TokenView>, p: int, rule: RuleView) -> Result<(int, RuleView), int>
    decreases ts.len() - p,
{
    if p < 0 || p >= ts.len() {
        Err(p)
    } else if ts[p].0 == TokenType::Comma {
        match spec_predicate_rule(ts, p + 1, rule) {
            Err(e) => Err(e),
            Ok((q, next)) => {
                proof {
                    lemma_predicate_rule_advances(ts, p + 1, rule);
                }
                spec_predicate_list(ts, q, next)
            },
        }
    } else {
        Ok((p, rule))
    }
}

pub proof fn lemma_predicate_list_advances(ts: Seq<TokenView>, p: int, rule: RuleView)
    ensures
        spec_predicate_list(ts, p, rule) matches Ok((q, x)) ==> p <= q < ts.len(),
    decreases ts.len() - p,
{
    if 0 <= p < ts.len() && ts[p].0 == TokenType::Comma {
        lemma_predicate_rule_advances(ts, p + 1, rule);
        if let Ok((q, next)) = spec_predicate_rule(ts, p + 1, rule) {
            lemma_predicate_list_advances(ts, q, next);
        }
    }
}

/// `headPredicate -> Id ( Id idList )`.
pub open spec fn spec_head_predicate(ts: Seq<TokenView>, p: int) -> Result<(int, PredView), int> {
    if p < 0 || p >= ts.len() {
        Err(p)
    } else if ts[p].0 != TokenType::Id {
        Err(p)
    } else if !tok_is(ts, p + 1, TokenType::LeftParen) {
        Err(p + 1)
    } else if !tok_is(ts, p + 2, TokenType::Id) {
        Err(p + 2)
    } else {
        match spec_id_list(ts, p + 3, (ts[p].1, seq![ts[p + 2].1])) {
            Err(e) => Err(e),
            Ok((q, pred)) => if tok_is(ts, q, TokenType::RightParen) {
                Ok((q + 1, pred))
            } else {
                Err(q)
            },
        }
    }
}

/// Law: a rule head `Id ( Id , Id , ... )` with any number of identifiers in its list reads
/// as a predicate of that name whose parameters are exactly those identifiers, in order.
pub proof fn law_head_reads_all(ts: Seq<TokenView>, p: int, first: Seq<char>, ids: Seq<Seq<char>>)
    requires
        0 <= p,
        p + 2 < ts.len(),
        ts[p].0 == TokenType::Id,
        ts[p + 1].0 == TokenType::LeftParen,
        ts[p + 2].0 == TokenType::Id,
        ts[p + 2].1 == first,
        comma_ids(ts, p + 3, ids),
        ts[p + 3 + 2 * ids.len()].0 == TokenType::RightParen,
    ensures
        spec_head_predicate(ts, p) == Ok::<(int, PredView), int>((p + 4 + 2 * ids.len(), (ts[p].1, seq![first] + ids))),
{
    law_id_list_reads_all(ts, p + 3, (ts[p].1, seq![first]), ids);
}

/// From `p` on, the tokens are `, String` once for each of `vals`, with those strings in
/// order, and then a token that is not a comma.
pub open spec fn comma_strings(ts: Seq<TokenView>, p: int, vals: Seq<Seq<char>>) -> bool {
    &&& 0 <= p
    &&& p + 2 * vals.len() < ts.len()
    &&& ts[p + 2 * vals.len()].0 != TokenType::Comma
    &&& forall|k: int| #![trigger vals[k]] 0 <= k < vals.len() ==> ts[p + 2 * k].0 == TokenType::Comma && ts[p + 2 * k + 1].0
        == TokenType::String && ts[p + 2 * k + 1].1 == vals[k]
}

/// From `p` on, the tokens are `, parameter` (a string or an identifier) once for each of
/// `vals`, with those texts in order, and then a token that is not a comma.
pub open spec fn comma_params(ts: Seq<TokenView>, p: int, vals: Seq<Seq<char>>) -> bool {
    &&& 0 <= p
    &&& p + 2 * vals.len() < ts.len()
    &&& ts[p + 2 * vals.len()].0 != TokenType::Comma
    &&& forall|k: int| #![trigger vals[k]] 0 <= k < vals.len() ==> ts[p + 2 * k].0 == TokenType::Comma && (ts[p + 2 * k
        + 1].0 == TokenType::String || ts[p + 2 * k + 1].0 == TokenType::Id) && ts[p + 2 * k + 1].1 == vals[k]
}

/// Law: a string list reads every `, String` pair, however many there are: it adds all their
/// strings, in order, to the fact and stops at the first token that is not a comma.
pub proof fn law_string_list_reads_all(ts: Seq<TokenView>, p: int, acc: (PredView, ProgView), vals: Seq<Seq<char>>)
    requires
        comma_strings(ts, p, vals),
    ensures
        spec_string_list(ts, p, acc) is Ok,
        spec_string_list(ts, p, acc)->Ok_0.0 == p + 2 * vals.len(),
        spec_string_list(ts, p, acc)->Ok_0.1.0 == (acc.0.0, acc.0.1 + vals),
    decreases vals.len(),
{
    if vals.len() == 0 {
        assert(acc.0.1 + vals =~= acc.0.1);
    } else {
        let rest = vals.drop_first();
        let q = p + 2;
        assert(ts[p + 2 * 0].0 == TokenType::Comma && ts[p + 2 * 0 + 1].1 == vals[0]);
        assert forall|k: int| 0 <= k < rest.len() implies #[trigger] ts[q + 2 * k].0 == TokenType::Comma
            && ts[q + 2 * k + 1].0 == TokenType::String && ts[q + 2 * k + 1].1 == rest[k] by {
            assert(rest[k] == vals[k + 1]);
            assert(p + 2 * (k + 1) == q + 2 * k);
        }
        assert(q + 2 * rest.len() == p + 2 * vals.len());
        assert(comma_strings(ts, q, rest));
        let v = ts[p + 1].1;
        law_string_list_reads_all(
            ts,
            q,
            ((acc.0.0, acc.0.1.push(v)), ProgView { domain: domain_add(acc.1.domain, v), ..acc.1 }),
            rest,
        );
        assert(acc.0.1.push(vals[0]) + rest =~= acc.0.1 + vals);
    }
}

/// Law: a parameter list reads every `, parameter` pair, however many there are: it adds all
/// their texts, in order, to the predicate and stops at the first token that is not a comma.
pub proof fn law_parameter_list_reads_all(ts: Seq<TokenView>, p: int, pred: PredView, vals: Seq<Seq<char>>)
    requires
        comma_params(ts, p, vals),
    ensures
        spec_parameter_list(ts, p, pred) == Ok::<(int, PredView), int>((p + 2 * vals.len(), (pred.0, pred.1 + vals))),
    decreases vals.len(),
{
    if vals.len() == 0 {
        assert(pred.1 + vals =~= pred.1);
    } else {
        let rest = vals.drop_first();
        let q = p + 2;
        assert(ts[p + 2 * 0].0 == TokenType::Comma && ts[p + 2 * 0 + 1].1 == vals[0]);
        assert forall|k: int| 0 <= k < rest.len() implies #[trigger] ts[q + 2 * k].0 == TokenType::Comma
            && (ts[q + 2 * k + 1].0 == TokenType::String || ts[q + 2 * k + 1].0 == TokenType::Id) && ts[q + 2 * k + 1].1
            == rest[k] by {
            assert(rest[k] == vals[k + 1]);
            assert(p + 2 * (k + 1) == q + 2 * k);
        }
        assert(q + 2 * rest.len() == p + 2 * vals.len());
        assert(comma_params(ts, q, rest));
        law_parameter_list_reads_all(ts, q, (pred.0, pred.1.push(vals[0])), rest);
        assert(pred.1.push(vals[0]) + rest =~= pred.1 + vals);
    }
}

/// `rule -> headPredicate :- predicate predicateList . | ε`, adding the rule to the program.
pub open spec fn spec_rule(ts: Seq<TokenView>, p: int, prog: ProgView) -> Result<(int, ProgView), int> {
    if p < 0 || p >= ts.len() {
        Err(p)
    } else if ts[p].0 != TokenType::Id {
        Ok((p, prog))
    } else {
        match spec_head_predicate(ts, p) {
            Err(e) => Err(e),
            Ok((q, head)) => if !tok_is(ts, q, TokenType::ColonDash) {
                Err(q)
            } else {
                match spec_predicate_rule(ts, q + 1, (head, Seq::empty())) {
                    Err(e) => Err(e),
                    Ok((q2, r)) => match spec_predicate_list(ts, q2, r) {
                        Err(e) => Err(e),
                        Ok((q3, r3)) => if tok_is(ts, q3, TokenType::Period) {
                            Ok((q3 + 1, ProgView { rules: prog.rules.push(r3), ..prog }))
                        } else {
                            Err(q3)
                        },
                    },
                }
            },
        }
    }
}

pub proof fn lemma_rule_advances(ts: Seq<TokenView>, p: int, prog: ProgView)
    ensures
        0 <= p < ts.len() && ts[p].0 == TokenType::Id ==> (spec_rule(ts, p, prog) matches Ok((q, x)) ==> p < q),
{
    if 0 <= p < ts.len() && ts[p].0 == TokenType::Id && tok_is(ts, p + 1, TokenType::LeftParen) && tok_is(
        ts,
        p + 2,
        TokenType::Id,
    ) {
        lemma_id_list_advances(ts, p + 3, (ts[p].1, seq![ts[p + 2].1]));
        if let Ok((q, head)) = spec_head_predicate(ts, p) {
            lemma_predicate_rule_advances(ts, q + 1, (head, Seq::empty()));
            if let Ok((q2, r)) = spec_predicate_rule(ts, q + 1, (head, Seq::empty())) {
                lemma_predicate_list_advances(ts, q2, r);
            }
        }
    }
}

/// `ruleList -> rule ruleList | ε`.
pub open spec fn spec_rule_list(ts: Seq<TokenView>, p: int, prog: ProgView) -> Result<(int, ProgView), int>
    decreases ts.len() - p,
{
    if p < 0 || p >= ts.len() {
        Err(p)
    } else if ts[p].0 != TokenType::Id {
        Ok((p, prog))
    } else {
        match spec_rule(ts, p, prog) {
            Err(e) => Err(e),
            Ok((q, next)) => {
                proof {
                    lemma_rule_advances(ts, p, prog);
                }
                spec_rule_list(ts, q, next)
            },
        }
    }
}

/// `query -> predicate ? | ε`, adding the query to the program.
pub open spec fn spec_query(ts: Seq<TokenView>, p: int, prog: ProgView) -> Result<(int, ProgView), int> {
    if p < 0 || p >= ts.len() {
        Err(p)
    } else if ts[p].0 != TokenType::Id {
        Ok((p, prog))
    } else {
        match spec_predicate(ts, p, (ts[p].1, Seq::empty())) {
            Err(e) => Err(e),
            Ok((q, pred)) => if tok_is(ts, q, TokenType::QMark) {
                Ok((q + 1, ProgView { queries: prog.queries.push(pred), ..prog }))
            } else {
                Err(q)
            },
        }
    }
}

pub proof fn lemma_query_advances(ts: Seq<TokenView>, p: int, prog: ProgView)
    ensures
        0 <= p < ts.len() && ts[p].0 == TokenType::Id ==> (spec_query(ts, p, prog) matches Ok((q, x)) ==> p < q),
{
    if 0 <= p < ts.len() && ts[p].0 == TokenType::Id && tok_is(ts, p + 1, TokenType::LeftParen) {
        if let Ok((q, x)) = spec_parameter(ts, p + 2, (ts[p].1, Seq::empty())) {
            lemma_parameter_list_advances(ts, q, x);
        }
    }
}

/// `queryList -> query queryList | ε`.
pub open spec fn spec_query_list(ts: Seq<TokenView>, p: int, prog: ProgView) -> Result<(int, ProgView), int>
    decreases ts.len() - p,
{
    if p < 0 || p >= ts.len() {
        Err(p)
    } else if ts[p].0 != TokenType::Id {
        Ok((p, prog))
    } else {
        match spec_query(ts, p, prog) {
            Err(e) => Err(e),
            Ok((q, next)) => {
                proof {
                    lemma_query_advances(ts, p, prog);
                }
                spec_query_list(ts, q, next)
            },
        }
    }
}

/// The empty program.
pub open spec fn empty_program() -> ProgView {
    ProgView {
        schemes: Seq::empty(),
        facts: Seq::empty(),
        rules: Seq::empty(),
        queries: Seq::empty(),
        domain: Seq::empty(),
    }
}

/// `program -> Schemes : scheme schemeList Facts : factList Rules : ruleList Queries : query
/// queryList End`.
pub open spec fn spec_parse(ts: Seq<TokenView>, p: int) -> Result<(int, ProgView), int> {
    if !tok_is(ts, p, TokenType::Schemes) {
        Err(p)
    } else if !tok_is(ts, p + 1, TokenType::Colon) {
        Err(p + 1)
    } else {
        match spec_scheme(ts, p + 2, empty_program()) {
            Err(e) => Err(e),
            Ok((q1, g1)) => match spec_scheme_list(ts, q1, g1) {
                Err(e) => Err(e),
                Ok((q2, g2)) => if !tok_is(ts, q2, TokenType::Facts) {
                    Err(q2)
                } else if !tok_is(ts, q2 + 1, TokenType::Colon) {
                    Err(q2 + 1)
                } else {
                    match spec_fact_list(ts, q2 + 2, g2) {
                        Err(e) => Err(e),
                        Ok((q3, g3)) => if !tok_is(ts, q3, TokenType::Rules) {
                            Err(q3)
                        } else if !tok_is(ts, q3 + 1, TokenType::Colon) {
                            Err(q3 + 1)
                        } else {
                            match spec_rule_list(ts, q3 + 2, g3) {
                                Err(e) => Err(e),
                                Ok((q4, g4)) => if !tok_is(ts, q4, TokenType::Queries) {
                                    Err(q4)
                                } else if !tok_is(ts, q4 + 1, TokenType::Colon) {
                                    Err(q4 + 1)
                                } else {
                                    match spec_query(ts, q4 + 2, g4) {
                                        Err(e) => Err(e),
                                        Ok((q5, g5)) => match spec_query_list(ts, q5, g5) {
                                            Err(e) => Err(e),
                                            Ok((q6, g6)) => if tok_is(ts, q6, TokenType::End) {
                                                Ok((q6 + 1, g6))
                                            } else {
                                                Err(q6)
                                            },
                                        },
                                    }
                                }
                            }
                        }
                    }
                }
            },
        }
    }
}

/// The outcome of a parse step holds: on success, the position reached and the value built;
/// on failure, the error names the token at the failing position.
pub open spec fn outcome<X>(
    s: Result<(int, X), int>,
    r: Result<(), ParseError>,
    pos: int,
    x: X,
    ts: Seq<TokenView>,
) -> bool {
    match s {
        Ok((q, v)) => r is Ok && pos == q && x == v,
        Err(e) => r matches Err(err) && err.position == e && 0 <= e < ts.len() && err.token@ == ts[e],
    }
}

/// The step reads only tokens that exist.
pub open spec fn within<X>(ts: Seq<TokenView>, s: Result<(int, X), int>) -> bool {
    match s {
        Ok(_) => true,
        Err(e) => e < ts.len(),
    }
}

/// The tokens close with an `End` token.
pub open spec fn ends_with_end(ts: Seq<TokenView>) -> bool {
    ts.len() > 0 && ts.last().0 == TokenType::End
}

/// The step stays before the last token, in success and in failure.
pub open spec fn before_last<X>(ts: Seq<TokenView>, r: Result<(int, X), int>) -> bool {
    match r {
        Ok((q, _)) => q < ts.len(),
        Err(e) => e < ts.len(),
    }
}

proof fn lemma_bl_id_list(ts: Seq<TokenView>, p: int, pred: PredView)
    requires
        ends_with_end(ts),
        0 <= p < ts.len(),
    ensures
        before_last(ts, spec_id_list(ts, p, pred)),
    decreases ts.len() - p,
{
    if ts[p].0 == TokenType::Comma && tok_is(ts, p + 1, TokenType::Id) {
        lemma_bl_id_list(ts, p + 2, (pred.0, pred.1.push(ts[p + 1].1)));
    }
}

proof fn lemma_bl_scheme(ts: Seq<TokenView>, p: int, prog: ProgView)
    requires
        ends_with_end(ts),
        0 <= p < ts.len(),
    ensures
        before_last(ts, spec_scheme(ts, p, prog)),
{
    if ts[p].0 == TokenType::Id && tok_is(ts, p + 1, TokenType::LeftParen) && tok_is(ts, p + 2, TokenType::Id) {
        lemma_bl_id_list(ts, p + 3, (ts[p].1, seq![ts[p + 2].1]));
    }
}

proof fn lemma_bl_scheme_list(ts: Seq<TokenView>, p: int, prog: ProgView)
    requires
        ends_with_end(ts),
        0 <= p < ts.len(),
    ensures
        before_last(ts, spec_scheme_list(ts, p, prog)),
    decreases ts.len() - p,
{
    if ts[p].0 == TokenType::Id {
        lemma_bl_scheme(ts, p, prog);
        lemma_id_list_advances(ts, p + 3, (ts[p].1, seq![ts[p + 2].1]));
        if let Ok((q, next)) = spec_scheme(ts, p, prog) {
            lemma_bl_scheme_list(ts, q, next);
        }
    }
}

proof fn lemma_bl_string_list(ts: Seq<TokenView>, p: int, acc: (PredView, ProgView))
    requires
        ends_with_end(ts),
        0 <= p < ts.len(),
    ensures
        before_last(ts, spec_string_list(ts, p, acc)),
    decreases ts.len() - p,
{
    if ts[p].0 == TokenType::Comma && tok_is(ts, p + 1, TokenType::String) {
        let v = ts[p + 1].1;
        lemma_bl_string_list(
            ts,
            p + 2,
            ((acc.0.0, acc.0.1.push(v)), ProgView { domain: domain_add(acc.1.domain, v), ..acc.1 }),
        );
    }
}

proof fn lemma_bl_fact(ts: Seq<TokenView>, p: int, prog: ProgView)
    requires
        ends_with_end(ts),
        0 <= p < ts.len(),
    ensures
        before_last(ts, spec_fact(ts, p, prog)),
{
    if ts[p].0 == TokenType::Id && tok_is(ts, p + 1, TokenType::LeftParen) && tok_is(ts, p + 2, TokenType::String) {
        let v = ts[p + 2].1;
        lemma_bl_string_list(ts, p + 3, ((ts[p].1, seq![v]), ProgView { domain: domain_add(prog.domain, v), ..prog }));
    }
}

proof fn lemma_bl_fact_list(ts: Seq<TokenView>, p: int, prog: ProgView)
    requires
        ends_with_end(ts),
        0 <= p < ts.len(),
    ensures
        before_last(ts, spec_fact_list(ts, p, prog)),
    decreases ts.len() - p,
{
    if ts[p].0 == TokenType::Id {
        lemma_bl_fact(ts, p, prog);
        let v = ts[p + 2].1;
        lemma_string_list_advances(ts, p + 3, ((ts[p].1, seq![v]), ProgView { domain: domain_add(prog.domain, v), ..prog }));
        if let Ok((q, next)) = spec_fact(ts, p, prog) {
            lemma_bl_fact_list(ts, q, next);
        }
    }
}

proof fn lemma_bl_parameter_list(ts: Seq<TokenView>, p: int, pred: PredView)
    requires
        ends_with_end(ts),
        0 <= p < ts.len(),
    ensures
        before_last(ts, spec_parameter_list(ts, p, pred)),
    decreases ts.len() - p,
{
    if ts[p].0 == TokenType::Comma {
        if let Ok((q, next)) = spec_parameter(ts, p + 1, pred) {
            lemma_bl_parameter_list(ts, q, next);
        }
    }
}

proof fn lemma_bl_predicate(ts: Seq<TokenView>, p: int, pred: PredView)
    requires
        ends_with_end(ts),
        0 <= p < ts.len(),
    ensures
        before_last(ts, spec_predicate(ts, p, pred)),
{
    if ts[p].0 == TokenType::Id && tok_is(ts, p + 1, TokenType::LeftParen) {
        if let Ok((q, x)) = spec_parameter(ts, p + 2, pred) {
            lemma_bl_parameter_list(ts, q, x);
        }
    }
}

proof fn lemma_bl_predicate_rule(ts: Seq<TokenView>, p: int, rule: RuleView)
    requires
        ends_with_end(ts),
        0 <= p < ts.len(),
    ensures
        before_last(ts, spec_predicate_rule(ts, p, rule)),
{
    if ts[p].0 == TokenType::Id && tok_is(ts, p + 1, TokenType::LeftParen) {
        if let Ok((q, x)) = spec_parameter(ts, p + 2, (ts[p].1, Seq::empty())) {
            lemma_bl_parameter_list(ts, q, x);
        }
    }
}

proof fn lemma_bl_predicate_list(ts: Seq<TokenView>, p: int, rule: RuleView)
    requires
        ends_with_end(ts),
        0 <= p < ts.len(),
    ensures
        before_last(ts, spec_predicate_list(ts, p, rule)),
    decreases ts.len() - p,
{
    if ts[p].0 == TokenType::Comma {
        lemma_bl_predicate_rule(ts, p + 1, rule);
        lemma_predicate_rule_advances(ts, p + 1, rule);
        if let Ok((q, next)) = spec_predicate_rule(ts, p + 1, rule) {
            lemma_bl_predicate_list(ts, q, next);
        }
    }
}

proof fn lemma_bl_rule(ts: Seq<TokenView>, p: int, prog: ProgView)
    requires
        ends_with_end(ts),
        0 <= p < ts.len(),
    ensures
        before_last(ts, spec_rule(ts, p, prog)),
{
    if ts[p].0 == TokenType::Id && tok_is(ts, p + 1, TokenType::LeftParen) && tok_is(ts, p + 2, TokenType::Id) {
        lemma_bl_id_list(ts, p + 3, (ts[p].1, seq![ts[p + 2].1]));
        if let Ok((q, head)) = spec_head_predicate(ts, p) {
            if tok_is(ts, q, TokenType::ColonDash) {
                lemma_bl_predicate_rule(ts, q + 1, (head, Seq::empty()));
                if let Ok((q2, r)) = spec_predicate_rule(ts, q + 1, (head, Seq::empty())) {
                    lemma_bl_predicate_list(ts, q2, r);
                }
            }
        }
    }
}

proof fn lemma_bl_rule_list(ts: Seq<TokenView>, p: int, prog: ProgView)
    requires
        ends_with_end(ts),
        0 <= p < ts.len(),
    ensures
        before_last(ts, spec_rule_list(ts, p, prog)),
    decreases ts.len() - p,
{
    if ts[p].0 == TokenType::Id {
        lemma_bl_rule(ts, p, prog);
        lemma_rule_advances(ts, p, prog);
        if let Ok((q, next)) = spec_rule(ts, p, prog) {
            lemma_bl_rule_list(ts, q, next);
        }
    }
}

proof fn lemma_bl_query(ts: Seq<TokenView>, p: int, prog: ProgView)
    requires
        ends_with_end(ts),
        0 <= p < ts.len(),
    ensures
        before_last(ts, spec_query(ts, p, prog)),
{
    if ts[p].0 == TokenType::Id {
        lemma_bl_predicate(ts, p, (ts[p].1, Seq::empty()));
    }
}

proof fn lemma_bl_query_list(ts: Seq<TokenView>, p: int, prog: ProgView)
    requires
        ends_with_end(ts),
        0 <= p < ts.len(),
    ensures
        before_last(ts, spec_query_list(ts, p, prog)),
    decreases ts.len() - p,
{
    if ts[p].0 == TokenType::Id {
        lemma_bl_query(ts, p, prog);
        lemma_query_advances(ts, p, prog);
        if let Ok((q, next)) = spec_query(ts, p, prog) {
            lemma_bl_query_list(ts, q, next);
        }
    }
}

/// Tokens that close with `End` are never read past their end: every failure of the parse
/// stands at a token.
pub proof fn lemma_parse_within(ts: Seq<TokenView>, p: int)
    requires
        ends_with_end(ts),
        0 <= p < ts.len(),
    ensures
        within(ts, spec_parse(ts, p)),
{
    if tok_is(ts, p, TokenType::Schemes) && tok_is(ts, p + 1, TokenType::Colon) {
        lemma_bl_scheme(ts, p + 2, empty_program());
        if let Ok((q1, g1)) = spec_scheme(ts, p + 2, empty_program()) {
            lemma_bl_scheme_list(ts, q1, g1);
            if let Ok((q2, g2)) = spec_scheme_list(ts, q1, g1) {
                if tok_is(ts, q2, TokenType::Facts) && tok_is(ts, q2 + 1, TokenType::Colon) {
                    lemma_bl_fact_list(ts, q2 + 2, g2);
                    if let Ok((q3, g3)) = spec_fact_list(ts, q2 + 2, g2) {
                        if tok_is(ts, q3, TokenType::Rules) && tok_is(ts, q3 + 1, TokenType::Colon) {
                            lemma_bl_rule_list(ts, q3 + 2, g3);
                            if let Ok((q4, g4)) = spec_rule_list(ts, q3 + 2, g3) {
                                if tok_is(ts, q4, TokenType::Queries) && tok_is(ts, q4 + 1, TokenType::Colon) {
                                    lemma_bl_query(ts, q4 + 2, g4);
                                    if let Ok((q5, g5)) = spec_query(ts, q4 + 2, g4) {
                                        lemma_bl_query_list(ts, q5, g5);
                                    }
                                }
                            }
                        }
                    }
                }
            }
        }
    }
}

/// Parses the tokens of a whole program; they must close with `End`, as the scanner's do.
pub fn parse_tokens(tokens: Vec<Token>) -> (r: Result<DatalogProgram, ParseError>)
    requires
        ends_with_end(tokens_view(tokens@)),
    ensures
        r matches Ok(d) ==> d@.domain.no_duplicates(),
        match spec_parse(tokens_view(tokens@), 0) {
            Ok((q, v)) => r matches Ok(d) && d@ == v,
            Err(e) => r matches Err(err) && err.position == e && 0 <= e < tokens@.len()
                && err.token@ == tokens_view(tokens@)[e],
        },
{
    proof {
        lemma_parse_within(tokens_view(tokens@), 0);
    }
    let mut parser = Parser::new(tokens);
    parser.parse()
}

/// Where parsing stopped: the position and the token there.
pub struct ParseError {
    pub position: usize,
    pub token: Token,
}

/// A recursive-descent parser over a list of tokens.
pub struct Parser {
    tokens: Vec<Token>,
    current: usize,
}

impl Parser {
    /// The tokens, as values.
    pub closed spec fn toks(&self) -> Seq<TokenView> {
        tokens_view(self.tokens@)
    }

    /// The position of the next token to read.
    pub closed spec fn pos(&self) -> int {
        self.current as int
    }

    /// A parser at the first of the tokens.
    pub fn new(tokens: Vec<Token>) -> (r: Parser)
        ensures
            r.toks() == tokens_view(tokens@),
            r.pos() == 0,
    {
        Parser { tokens, current: 0 }
    }

    /// The kind of the current token.
    pub fn token_type(&self) -> (t: TokenType)
        requires
            0 <= self.pos() < self.toks().len(),
        ensures
            t == self.toks()[self.pos()].0,
    {
        self.tokens[self.current].t_type
    }

    /// Moves to the next token, unless past the last one.
    pub fn advance_token(&mut self)
        ensures
            final(self).toks() == old(self).toks(),
            final(self).pos() == if old(self).pos() < old(self).toks().len() {
                old(self).pos() + 1
            } else {
                old(self).pos()
            },
    {
        if self.current < self.tokens.len() {
            self.current += 1;
        }
    }

    /// The error at the current token.
    pub fn throw_error(&self) -> (e: ParseError)
        requires
            0 <= self.pos() < self.toks().len(),
        ensures
            e.position == self.pos(),
            e.token@ == self.toks()[self.pos()],
    {
        let t = &self.tokens[self.current];
        ParseError {
            position: self.current,
            token: Token { t_type: t.t_type, value: t.value.clone(), line: t.line },
        }
    }

    /// Accepts the current token if it is of the expected kind.
    pub fn match_token(&mut self, expected_token: TokenType) -> (r: Result<(), ParseError>)
        requires
            0 <= old(self).pos() < old(self).toks().len(),
        ensures
            final(self).toks() == old(self).toks(),
            if old(self).toks()[old(self).pos()].0 == expected_token {
                r is Ok && final(self).pos() == old(self).pos() + 1
            } else {
                r matches Err(err) && err.position == old(self).pos() && err.token@ == old(self).toks()[old(self).pos()]
                    && final(self).pos() == old(self).pos()
            },
    {
        if self.tokens[self.current].t_type == expected_token {
            self.advance_token();
            Ok(())
        } else {
            Err(self.throw_error())
        }
    }

    /// The value of the current token.
    fn value(&self) -> (v: String)
        requires
            0 <= self.pos() < self.toks().len(),
        ensures
            v@ == self.toks()[self.pos()].1,
    {
        self.tokens[self.current].value.clone()
    }

    /// Whether the current token is of the given kind.
    fn at(&self, t: TokenType) -> (b: bool)
        requires
            0 <= self.pos() < self.toks().len(),
        ensures
            b == (self.toks()[self.pos()].0 == t),
    {
        self.tokens[self.current].t_type == t
    }

    /// `idList -> , Id idList | ε`.
    pub fn id_list(&mut self, scheme: &mut Predicate) -> (r: Result<(), ParseError>)
        requires
            0 <= old(self).pos() <= old(self).toks().len(),
            within(old(self).toks(), spec_id_list(old(self).toks(), old(self).pos(), old(scheme)@)),
        ensures
            final(self).toks() == old(self).toks(),
            outcome(spec_id_list(old(self).toks(), old(self).pos(), old(scheme)@), r, final(self).pos(), final(scheme)@, old(self).toks()),
        decreases old(self).toks().len() - old(self).pos(),
    {
        if self.at(TokenType::Comma) {
            self.match_token(TokenType::Comma)?;
            let v = self.value();
            let ghost before = scheme.parameters.deep_view();
            scheme.parameters.push(v);
            assert(scheme.parameters.deep_view() =~= before.push(v@));
            self.match_token(TokenType::Id)?;
            self.id_list(scheme)
        } else {
            Ok(())
        }
    }

    /// `scheme -> Id ( Id idList ) | ε`.
    pub fn scheme(&mut self, data: &mut DatalogProgram) -> (r: Result<(), ParseError>)
        requires
            0 <= old(self).pos() <= old(self).toks().len(),
            within(old(self).toks(), spec_scheme(old(self).toks(), old(self).pos(), old(data)@)),
        ensures
            final(self).toks() == old(self).toks(),
            old(data)@.domain.no_duplicates() ==> final(data)@.domain.no_duplicates(),
            outcome(spec_scheme(old(self).toks(), old(self).pos(), old(data)@), r, final(self).pos(), final(data)@, old(self).toks()),
    {
        if self.at(TokenType::Id) {
            let mut new_scheme = Predicate { name: self.value(), parameters: Vec::new() };
            self.match_token(TokenType::Id)?;
            self.match_token(TokenType::LeftParen)?;
            new_scheme.parameters.push(self.value());
            assert(new_scheme.parameters.deep_view() =~= seq![self.toks()[self.pos()].1]);
            self.match_token(TokenType::Id)?;
            self.id_list(&mut new_scheme)?;
            self.match_token(TokenType::RightParen)?;
            let ghost before = data.schemes@;
            data.schemes.push(new_scheme);
            proof {
                lemma_preds_push(before, new_scheme);
            }
        }
        Ok(())
    }

    /// `schemeList -> scheme schemeList | ε`.
    pub fn scheme_list(&mut self, data: &mut DatalogProgram) -> (r: Result<(), ParseError>)
        requires
            0 <= old(self).pos() <= old(self).toks().len(),
            within(old(self).toks(), spec_scheme_list(old(self).toks(), old(self).pos(), old(data)@)),
        ensures
            final(self).toks() == old(self).toks(),
            old(data)@.domain.no_duplicates() ==> final(data)@.domain.no_duplicates(),
            outcome(spec_scheme_list(old(self).toks(), old(self).pos(), old(data)@), r, final(self).pos(), final(data)@, old(self).toks()),
        decreases old(self).toks().len() - old(self).pos(),
    {
        if self.at(TokenType::Id) {
            proof {
                let ts = self.toks();
                let p = self.pos();
                lemma_id_list_advances(ts, p + 3, (ts[p].1, seq![ts[p + 2].1]));
            }
            self.scheme(data)?;
            self.scheme_list(data)
        } else {
            Ok(())
        }
    }

    /// `stringList -> , String stringList | ε`.
    pub fn string_list(&mut self, fact: &mut Predicate, data: &mut DatalogProgram) -> (r: Result<(), ParseError>)
        requires
            0 <= old(self).pos() <= old(self).toks().len(),
            within(old(self).toks(), spec_string_list(old(self).toks(), old(self).pos(), (old(fact)@, old(data)@))),
        ensures
            final(self).toks() == old(self).toks(),
            old(data)@.domain.no_duplicates() ==> final(data)@.domain.no_duplicates(),
            outcome(
                spec_string_list(old(self).toks(), old(self).pos(), (old(fact)@, old(data)@)),
                r,
                final(self).pos(),
                (final(fact)@, final(data)@),
                old(self).toks(),
            ),
        decreases old(self).toks().len() - old(self).pos(),
    {
        if self.at(TokenType::Comma) {
            self.match_token(TokenType::Comma)?;
            let ghost before = fact.parameters.deep_view();
            fact.parameters.push(self.value());
            assert(fact.parameters.deep_view() =~= before.push(self.toks()[self.pos()].1));
            domain_insert(&mut data.domain, self.value());
            self.match_token(TokenType::String)?;
            self.string_list(fact, data)
        } else {
            Ok(())
        }
    }

    /// `fact -> Id ( String stringList ) . | ε`.
    pub fn fact(&mut self, data: &mut DatalogProgram) -> (r: Result<(), ParseError>)
        requires
            0 <= old(self).pos() <= old(self).toks().len(),
            within(old(self).toks(), spec_fact(old(self).toks(), old(self).pos(), old(data)@)),
        ensures
            final(self).toks() == old(self).toks(),
            old(data)@.domain.no_duplicates() ==> final(data)@.domain.no_duplicates(),
            outcome(spec_fact(old(self).toks(), old(self).pos(), old(data)@), r, final(self).pos(), final(data)@, old(self).toks()),
    {
        if self.at(TokenType::Id) {
            let mut new_fact = Predicate { name: self.value(), parameters: Vec::new() };
            self.match_token(TokenType::Id)?;
            self.match_token(TokenType::LeftParen)?;
            new_fact.parameters.push(self.value());
            assert(new_fact.parameters.deep_view() =~= seq![self.toks()[self.pos()].1]);
            domain_insert(&mut data.domain, self.value());
            self.match_token(TokenType::String)?;
            self.string_list(&mut new_fact, data)?;
            self.match_token(TokenType::RightParen)?;
            self.match_token(TokenType::Period)?;
            let ghost before = data.facts@;
            data.facts.push(new_fact);
            proof {
                lemma_preds_push(before, new_fact);
            }
        }
        Ok(())
    }

    /// `factList -> fact factList | ε`.
    pub fn fact_list(&mut self, data: &mut DatalogProgram) -> (r: Result<(), ParseError>)
        requires
            0 <= old(self).pos() <= old(self).toks().len(),
            within(old(self).toks(), spec_fact_list(old(self).toks(), old(self).pos(), old(data)@)),
        ensures
            final(self).toks() == old(self).toks(),
            old(data)@.domain.no_duplicates() ==> final(data)@.domain.no_duplicates(),
            outcome(spec_fact_list(old(self).toks(), old(self).pos(), old(data)@), r, final(self).pos(), final(data)@, old(self).toks()),
        decreases old(self).toks().len() - old(self).pos(),
    {
        if self.at(TokenType::Id) {
            proof {
                let ts = self.toks();
                let p = self.pos();
                let prog = data@;
                let v = ts[p + 2].1;
                lemma_string_list_advances(
                    ts,
                    p + 3,
                    ((ts[p].1, seq![v]), ProgView { domain: domain_add(prog.domain, v), ..prog }),
                );
            }
            self.fact(data)?;
            self.fact_list(data)
        } else {
            Ok(())
        }
    }

    /// `parameter -> String | Id`.
    pub fn parameter(&mut self, predicate: &mut Predicate) -> (r: Result<(), ParseError>)
        requires
            0 <= old(self).pos() <= old(self).toks().len(),
            within(old(self).toks(), spec_parameter(old(self).toks(), old(self).pos(), old(predicate)@)),
        ensures
            final(self).toks() == old(self).toks(),
            outcome(spec_parameter(old(self).toks(), old(self).pos(), old(predicate)@), r, final(self).pos(), final(predicate)@, old(self).toks()),
    {
        if self.at(TokenType::String) {
            let ghost before = predicate.parameters.deep_view();
            predicate.parameters.push(self.value());
            assert(predicate.parameters.deep_view() =~= before.push(self.toks()[self.pos()].1));
            self.match_token(TokenType::String)
        } else if self.at(TokenType::Id) {
            let ghost before = predicate.parameters.deep_view();
            predicate.parameters.push(self.value());
            assert(predicate.parameters.deep_view() =~= before.push(self.toks()[self.pos()].1));
            self.match_token(TokenType::Id)
        } else {
            Err(self.throw_error())
        }
    }

    /// `parameterList -> , parameter parameterList | ε`.
    pub fn parameter_list(&mut self, predicate: &mut Predicate) -> (r: Result<(), ParseError>)
        requires
            0 <= old(self).pos() <= old(self).toks().len(),
            within(old(self).toks(), spec_parameter_list(old(self).toks(), old(self).pos(), old(predicate)@)),
        ensures
            final(self).toks() == old(self).toks(),
            outcome(spec_parameter_list(old(self).toks(), old(self).pos(), old(predicate)@), r, final(self).pos(), final(predicate)@, old(self).toks()),
        decreases old(self).toks().len() - old(self).pos(),
    {
        if self.at(TokenType::Comma) {
            self.match_token(TokenType::Comma)?;
            self.parameter(predicate)?;
            self.parameter_list(predicate)
        } else {
            Ok(())
        }
    }

    /// `predicate -> Id ( parameter parameterList )`.
    pub fn predicate(&mut self, predicate: &mut Predicate) -> (r: Result<(), ParseError>)
        requires
            0 <= old(self).pos() <= old(self).toks().len(),
            within(old(self).toks(), spec_predicate(old(self).toks(), old(self).pos(), old(predicate)@)),
        ensures
            final(self).toks() == old(self).toks(),
            outcome(spec_predicate(old(self).toks(), old(self).pos(), old(predicate)@), r, final(self).pos(), final(predicate)@, old(self).toks()),
    {
        if self.at(TokenType::Id) {
            self.match_token(TokenType::Id)?;
            self.match_token(TokenType::LeftParen)?;
            self.parameter(predicate)?;
            self.parameter_list(predicate)?;
            self.match_token(TokenType::RightParen)
        } else {
            Err(self.throw_error())
        }
    }

    /// A predicate of a rule body, added to the rule.
    pub fn predicate_rule(&mut self, rule: &mut Rule) -> (r: Result<(), ParseError>)
        requires
            0 <= old(self).pos() <= old(self).toks().len(),
            within(old(self).toks(), spec_predicate_rule(old(self).toks(), old(self).pos(), old(rule)@)),
        ensures
            final(self).toks() == old(self).toks(),
            outcome(spec_predicate_rule(old(self).toks(), old(self).pos(), old(rule)@), r, final(self).pos(), final(rule)@, old(self).toks()),
    {
        if self.at(TokenType::Id) {
            let mut predicate = Predicate { name: self.value(), parameters: Vec::new() };
            assert(predicate.parameters.deep_view() =~= Seq::<Seq<char>>::empty());
            self.match_token(TokenType::Id)?;
            self.match_token(TokenType::LeftParen)?;
            self.parameter(&mut predicate)?;
            self.parameter_list(&mut predicate)?;
            self.match_token(TokenType::RightParen)?;
            let ghost before = rule.body_predicates@;
            rule.body_predicates.push(predicate);
            proof {
                lemma_preds_push(before, predicate);
            }
            Ok(())
        } else {
            Err(self.throw_error())
        }
    }

    /// `predicateList -> , predicate predicateList | ε`.
    pub fn predicate_list(&mut self, rule: &mut Rule) -> (r: Result<(), ParseError>)
        requires
            0 <= old(self).pos() <= old(self).toks().len(),
            within(old(self).toks(), spec_predicate_list(old(self).toks(), old(self).pos(), old(rule)@)),
        ensures
            final(self).toks() == old(self).toks(),
            outcome(spec_predicate_list(old(self).toks(), old(self).pos(), old(rule)@), r, final(self).pos(), final(rule)@, old(self).toks()),
        decreases old(self).toks().len() - old(self).pos(),
    {
        if self.at(TokenType::Comma) {
            proof {
                lemma_predicate_rule_advances(self.toks(), self.pos() + 1, rule@);
            }
            self.match_token(TokenType::Comma)?;
            self.predicate_rule(rule)?;
            self.predicate_list(rule)
        } else {
            Ok(())
        }
    }

    /// `headPredicate -> Id ( Id idList )`.
    pub fn head_predicate(&mut self) -> (r: Result<Predicate, ParseError>)
        requires
            0 <= old(self).pos() <= old(self).toks().len(),
            within(old(self).toks(), spec_head_predicate(old(self).toks(), old(self).pos())),
        ensures
            final(self).toks() == old(self).toks(),
            match spec_head_predicate(old(self).toks(), old(self).pos()) {
                Ok((q, v)) => r matches Ok(p) && p@ == v && final(self).pos() == q,
                Err(e) => r matches Err(err) && err.position == e && 0 <= e < old(self).toks().len()
                    && err.token@ == old(self).toks()[e],
            },
    {
        let mut predicate = Predicate { name: self.value(), parameters: Vec::new() };
        self.match_token(TokenType::Id)?;
        self.match_token(TokenType::LeftParen)?;
        predicate.parameters.push(self.value());
        assert(predicate.parameters.deep_view() =~= seq![self.toks()[self.pos()].1]);
        self.match_token(TokenType::Id)?;
        self.id_list(&mut predicate)?;
        self.match_token(TokenType::RightParen)?;
        Ok(predicate)
    }

    /// `rule -> headPredicate :- predicate predicateList . | ε`.
    pub fn rule(&mut self, data: &mut DatalogProgram) -> (r: Result<(), ParseError>)
        requires
            0 <= old(self).pos() <= old(self).toks().len(),
            within(old(self).toks(), spec_rule(old(self).toks(), old(self).pos(), old(data)@)),
        ensures
            final(self).toks() == old(self).toks(),
            old(data)@.domain.no_duplicates() ==> final(data)@.domain.no_duplicates(),
            outcome(spec_rule(old(self).toks(), old(self).pos(), old(data)@), r, final(self).pos(), final(data)@, old(self).toks()),
    {
        if self.at(TokenType::Id) {
            let head = self.head_predicate()?;
            let mut new_rule = Rule { head_predicate: head, body_predicates: Vec::new() };
            assert(preds_view(new_rule.body_predicates@) =~= Seq::<PredView>::empty());
            self.match_token(TokenType::ColonDash)?;
            self.predicate_rule(&mut new_rule)?;
            self.predicate_list(&mut new_rule)?;
            self.match_token(TokenType::Period)?;
            let ghost before = data.rules@;
            data.rules.push(new_rule);
            assert(rules_view(data.rules@) =~= rules_view(before).push(new_rule@));
        }
        Ok(())
    }

    /// `ruleList -> rule ruleList | ε`.
    pub fn rule_list(&mut self, data: &mut DatalogProgram) -> (r: Result<(), ParseError>)
        requires
            0 <= old(self).pos() <= old(self).toks().len(),
            within(old(self).toks(), spec_rule_list(old(self).toks(), old(self).pos(), old(data)@)),
        ensures
            final(self).toks() == old(self).toks(),
            old(data)@.domain.no_duplicates() ==> final(data)@.domain.no_duplicates(),
            outcome(spec_rule_list(old(self).toks(), old(self).pos(), old(data)@), r, final(self).pos(), final(data)@, old(self).toks()),
        decreases old(self).toks().len() - old(self).pos(),
    {
        if self.at(TokenType::Id) {
            proof {
                lemma_rule_advances(self.toks(), self.pos(), data@);
            }
            self.rule(data)?;
            self.rule_list(data)
        } else {
            Ok(())
        }
    }

    /// `query -> predicate ? | ε`.
    pub fn query(&mut self, data: &mut DatalogProgram) -> (r: Result<(), ParseError>)
        requires
            0 <= old(self).pos() <= old(self).toks().len(),
            within(old(self).toks(), spec_query(old(self).toks(), old(self).pos(), old(data)@)),
        ensures
            final(self).toks() == old(self).toks(),
            old(data)@.domain.no_duplicates() ==> final(data)@.domain.no_duplicates(),
            outcome(spec_query(old(self).toks(), old(self).pos(), old(data)@), r, final(self).pos(), final(data)@, old(self).toks()),
    {
        if self.at(TokenType::Id) {
            let mut new_query = Predicate { name: self.value(), parameters: Vec::new() };
            assert(new_query.parameters.deep_view() =~= Seq::<Seq<char>>::empty());
            self.predicate(&mut new_query)?;
            self.match_token(TokenType::QMark)?;
            let ghost before = data.queries@;
            data.queries.push(new_query);
            proof {
                lemma_preds_push(before, new_query);
            }
        }
        Ok(())
    }

    /// `queryList -> query queryList | ε`.
    pub fn query_list(&mut self, data: &mut DatalogProgram) -> (r: Result<(), ParseError>)
        requires
            0 <= old(self).pos() <= old(self).toks().len(),
            within(old(self).toks(), spec_query_list(old(self).toks(), old(self).pos(), old(data)@)),
        ensures
            final(self).toks() == old(self).toks(),
            old(data)@.domain.no_duplicates() ==> final(data)@.domain.no_duplicates(),
            outcome(spec_query_list(old(self).toks(), old(self).pos(), old(data)@), r, final(self).pos(), final(data)@, old(self).toks()),
        decreases old(self).toks().len() - old(self).pos(),
    {
        if self.at(TokenType::Id) {
            proof {
                lemma_query_advances(self.toks(), self.pos(), data@);
            }
            self.query(data)?;
            self.query_list(data)
        } else {
            Ok(())
        }
    }

    /// Parses a whole program.
    #[verifier::spinoff_prover]
    #[verifier::rlimit(60)]
    pub fn parse(&mut self) -> (r: Result<DatalogProgram, ParseError>)
        requires
            0 <= old(self).pos() <= old(self).toks().len(),
            within(old(self).toks(), spec_parse(old(self).toks(), old(self).pos())),
        ensures
            final(self).toks() == old(self).toks(),
            r matches Ok(d) ==> d@.domain.no_duplicates(),
            match spec_parse(old(self).toks(), old(self).pos()) {
                Ok((q, v)) => r matches Ok(d) && d@ == v && final(self).pos() == q,
                Err(e) => r matches Err(err) && err.position == e && 0 <= e < old(self).toks().len()
                    && err.token@ == old(self).toks()[e],
            },
    {
        let mut data: DatalogProgram = DatalogProgram::new();
        assert(data@.domain.no_duplicates());
        self.match_token(TokenType::Schemes)?;
        self.match_token(TokenType::Colon)?;
        self.scheme(&mut data)?;
        self.scheme_list(&mut data)?;
        self.match_token(TokenType::Facts)?;
        self.match_token(TokenType::Colon)?;
        self.fact_list(&mut data)?;
        self.match_token(TokenType::Rules)?;
        self.match_token(TokenType::Colon)?;
        self.rule_list(&mut data)?;
        self.match_token(TokenType::Queries)?;
        self.match_token(TokenType::Colon)?;
        self.query(&mut data)?;
        self.query_list(&mut data)?;
        self.match_token(TokenType::End)?;
        Ok(data)
    }
}

impl Predicate {
    /// The text of the predicate: `name(p1,p2,...)`.
    pub fn to_string(&self) -> (r: String)
        ensures
            r@ == predicate_text(self@),
    {
        let mut r = self.name.clone();
        r.append("(");
        let params = join_strings(&self.parameters, ",");
        r.append(params.as_str());
        r.append(")");
        r
    }
}

impl Rule {
    /// The text of the rule: `head :- body1,body2,....`
    pub fn to_string(&self) -> (r: String)
        ensures
            r@ == rule_text(self@),
    {
        let mut body: Vec<String> = Vec::new();
        let mut i: usize = 0;
        while i < self.body_predicates.len()
            invariant
                i <= self.body_predicates.len(),
                body.deep_view() =~= preds_view(self.body_predicates@).take(i as int).map_values(
                    |p: PredView| predicate_text(p),
                ),
            decreases self.body_predicates.len() - i,
        {
            let t = self.body_predicates[i].to_string();
            let ghost before = body.deep_view();
            body.push(t);
            assert(body.deep_view() =~= before.push(t@));
            i = i + 1;
        }
        assert(preds_view(self.body_predicates@).take(self.body_predicates.len() as int) =~= preds_view(
            self.body_predicates@,
        ));
        let mut r = self.head_predicate.to_string();
        r.append(" :- ");
        let b = join_strings(&body, ",");
        r.append(b.as_str());
        r.append(".");
        r
    }
}

impl DatalogProgram {
    /// An empty program.
    pub fn new() -> (r: DatalogProgram)
        ensures
            r@ == empty_program(),
    {
        let r = DatalogProgram {
            schemes: Vec::new(),
            facts: Vec::new(),
            rules: Vec::new(),
            queries: Vec::new(),
            domain: Vec::new(),
        };
        assert(r@.schemes =~= Seq::<PredView>::empty());
        assert(r@.facts =~= Seq::<PredView>::empty());
        assert(r@.rules =~= Seq::<RuleView>::empty());
        assert(r@.queries =~= Seq::<PredView>::empty());
        assert(r@.domain =~= Seq::<Seq<char>>::empty());
        r
    }
}

proof fn lemma_preds_push(s: Seq<Predicate>, x: Predicate)
    ensures
        preds_view(s.push(x)) == preds_view(s).push(x@),
{
    assert(preds_view(s.push(x)) =~= preds_view(s).push(x@));
}

/// Adds `v` to the domain unless it is there.
fn domain_insert(d: &mut Vec<String>, v: String)
    ensures
        final(d).deep_view() == domain_add(old(d).deep_view(), v@),
        old(d).deep_view().no_duplicates() ==> final(d).deep_view().no_duplicates(),
{
    if !crate::text::contains_string(d, &v) {
        let ghost before = d.deep_view();
        d.push(v);
        assert(d.deep_view() =~= before.push(v@));
        proof {
            if before.no_duplicates() {
                assert forall|i: int, j: int|
                    0 <= i < d.deep_view().len() && 0 <= j < d.deep_view().len() && i != j implies d.deep_view()[i]
                    != d.deep_view()[j] by {
                    if i == before.len() {
                        assert(before.contains(d.deep_view()[j]));
                    } else if j == before.len() {
                        assert(before.contains(d.deep_view()[i]));
                    }
                }
            }
        }
    }
}

} // verus!
