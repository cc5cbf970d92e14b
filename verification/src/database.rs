use vstd::prelude::*;
use vstd::string::*;
use crate::relation::{RelView, Relation, Tup, tuple_text, row_text, lemma_take_to_set, lemma_take_all, lemma_take_none_to_set};
use crate::text::{clone_row, sort_rows, sort_strings, sorted_by, row_order, string_order, starts_with_quote, lemma_orders_strict_total, lemma_sorted_set_unique, lemma_sorted_exists};
use crate::relation::{pick, answer_text, arity_ok};

verus! {

/// The relations of a Datalog program, found by name.
pub struct Database {
    database: Vec<Relation>,
}

impl View for Database {
    type V = Map<Seq<char>, RelView>;

    closed spec fn view(&self) -> Map<Seq<char>, RelView> {
        Map::new(|k: Seq<char>| self.has(k), |k: Seq<char>| self.database@[self.index_of(k)]@)
    }
}

impl Database {
    closed spec fn has(&self, k: Seq<char>) -> bool {
        exists|i: int| 0 <= i < self.database.len() && self.database@[i].name@ == k
    }

    closed spec fn index_of(&self, k: Seq<char>) -> int {
        choose|i: int| 0 <= i < self.database.len() && self.database@[i].name@ == k
    }

    /// Each relation holds each tuple once, and no two relations share a name.
    pub closed spec fn wf(&self) -> bool {
        &&& forall|i: int| 0 <= i < self.database.len() ==> (#[trigger] self.database@[i]).wf()
        &&& forall|i: int, j: int|
            0 <= i < self.database.len() && 0 <= j < self.database.len() && i != j ==> (
            #[trigger] self.database@[i]).name@ != (#[trigger] self.database@[j]).name@
    }

    /// The number of tuples over all relations.
    pub closed spec fn total(&self) -> nat {
        total_of(self.database@)
    }

    proof fn lemma_index(&self, i: int)
        requires
            self.wf(),
            0 <= i < self.database.len(),
        ensures
            self.has(self.database@[i].name@),
            self.index_of(self.database@[i].name@) == i,
            self@.contains_key(self.database@[i].name@),
            self@[self.database@[i].name@] == self.database@[i]@,
    {
        let k = self.database@[i].name@;
        assert(self.has(k));
        let j = self.index_of(k);
        if j != i {
            assert(self.database@[j].name@ != self.database@[i].name@);
        }
    }

    /// Law: every relation of the database is held under its own name.
    pub proof fn law_keyed_by_name(&self)
        requires
            self.wf(),
        ensures
            forall|k: Seq<char>| #[trigger] self@.contains_key(k) ==> self@[k].name == k,
    {
        assert forall|k: Seq<char>| #[trigger] self@.contains_key(k) implies self@[k].name == k by {
            let i = self.index_of(k);
        }
    }

    /// Every relation of the database holds finitely many tuples.
    pub proof fn lemma_finite(&self)
        requires
            self.wf(),
        ensures
            forall|k: Seq<char>| self@.contains_key(k) ==> #[trigger] self@[k].tuples.finite(),
    {
        assert forall|k: Seq<char>| self@.contains_key(k) implies #[trigger] self@[k].tuples.finite() by {
            let i = self.index_of(k);
            self.lemma_index(i);
        }
    }

    fn find(&self, name: &String) -> (r: Option<usize>)
        requires
            self.wf(),
        ensures
            match r {
                Some(i) => i < self.database.len() && self.database@[i as int].name@ == name@
                    && self@.contains_key(name@) && self@[name@] == self.database@[i as int]@,
                None => !self@.contains_key(name@),
            },
    {
        let mut i: usize = 0;
        while i < self.database.len()
            invariant
                i <= self.database.len(),
                self.wf(),
                forall|j: int| 0 <= j < i ==> self.database@[j].name@ != name@,
            decreases self.database.len() - i,
        {
            if self.database[i].name == *name {
                proof {
                    self.lemma_index(i as int);
                }
                return Some(i);
            }
            i = i + 1;
        }
        None
    }

    /// An empty database.
    pub fn new() -> (r: Database)
        ensures
            r.wf(),
            r@ == Map::<Seq<char>, RelView>::empty(),
            r.total() == 0,
    {
        let r = Database { database: Vec::new() };
        assert(r@ =~= Map::<Seq<char>, RelView>::empty());
        r
    }

    /// Stores a relation under its name, replacing any relation of that name.
    pub fn insert_relation(&mut self, result: Relation)
        requires
            old(self).wf(),
            result.wf(),
        ensures
            final(self).wf(),
            final(self)@ == old(self)@.insert(result.name@, result@),
            final(self).total() + (if old(self)@.contains_key(result.name@) {
                old(self)@[result.name@].tuples.len()
            } else {
                0
            }) == old(self).total() + result@.tuples.len(),
    {
        let ghost k = result.name@;
        let ghost rv = result@;
        match self.find(&result.name) {
            Some(i) => {
                let ghost before = *self;
                self.database.set(i, result);
                proof {
                    lemma_update(&before, self, i as int);
                    before.lemma_index(i as int);
                    lemma_total_update(before.database@, i as int, self.database@[i as int]);
                    assert(self.database@ =~= before.database@.update(i as int, self.database@[i as int]));
                }
            },
            None => {
                let ghost before = self.database@;
                self.database.push(result);
                let n = self.database.len() - 1;
                proof {
                    self.lemma_index(n as int);
                    assert(self.database@.drop_last() =~= before);
                }
                assert forall|x: Seq<char>| #[trigger] self@.contains_key(x) == old(self)@.insert(k, rv).contains_key(x)
                    && (self@.contains_key(x) ==> self@[x] == old(self)@.insert(k, rv)[x]) by {
                    if x != k {
                        if old(self).has(x) {
                            let j = old(self).index_of(x);
                            old(self).lemma_index(j);
                            self.lemma_index(j);
                        }
                        if self.has(x) {
                            let j = self.index_of(x);
                            self.lemma_index(j);
                            old(self).lemma_index(j);
                        }
                    }
                }
                assert(self@ =~= old(self)@.insert(k, rv));
            },
        }
    }

    /// Adds a tuple to the relation of that name, if there is one.
    pub fn insert_fact(&mut self, name: String, tuples: Vec<String>)
        requires
            old(self).wf(),
        ensures
            final(self).wf(),
            final(self)@ == if old(self)@.contains_key(name@) {
                old(self)@.insert(
                    name@,
                    RelView { tuples: old(self)@[name@].tuples.insert(tuples.deep_view()), ..old(self)@[name@] },
                )
            } else {
                old(self)@
            },
            final(self).total() == if old(self)@.contains_key(name@) && !old(self)@[name@].tuples.contains(
                tuples.deep_view(),
            ) {
                old(self).total() + 1
            } else {
                old(self).total()
            },
    {
        match self.find(&name) {
            Some(i) => {
                let ghost before = *self;
                let ghost t = tuples.deep_view();
                self.database[i].add_tuple(tuples);
                proof {
                    lemma_update(&before, self, i as int);
                    let old_set = before.database@[i as int]@.tuples;
                    before.database@[i as int].tuples.deep_view().unique_seq_to_set();
                    self.database@[i as int].tuples.deep_view().unique_seq_to_set();
                    if !old_set.contains(t) {
                        assert(self.database@[i as int].tuples.deep_view().len() == before.database@[i as int].tuples.deep_view().len() + 1);
                    }
                }
            },
            None => {},
        }
    }

    /// The number of tuples over all relations (it must fit in `u32`).
    pub fn size_before(&mut self) -> (r: u32)
        requires
            old(self).wf(),
            old(self).total() <= u32::MAX,
        ensures
            *final(self) == *old(self),
            r == old(self).total(),
    {
        self.count_tuples()
    }

    fn count_tuples(&self) -> (r: u32)
        requires
            self.wf(),
            self.total() <= u32::MAX,
        ensures
            r == self.total(),
    {
        let mut final_num: u32 = 0;
        let mut k: usize = 0;
        while k < self.database.len()
            invariant
                k <= self.database.len(),
                self.wf(),
                self.total() <= u32::MAX,
                final_num == total_of(self.database@.take(k as int)),
            decreases self.database.len() - k,
        {
            proof {
                assert(self.database@.take(k + 1).drop_last() =~= self.database@.take(k as int));
                lemma_total_prefix(self.database@, k + 1);
                self.database@[k as int].tuples.deep_view().unique_seq_to_set();
            }
            final_num = final_num + self.database[k].tuples.len() as u32;
            k = k + 1;
        }
        assert(self.database@.take(self.database.len() as int) =~= self.database@);
        final_num
    }

    /// Whether the number of tuples over all relations fits in `u32`.
    pub fn total_fits(&self) -> (r: bool)
        requires
            self.wf(),
        ensures
            r == (self.total() <= u32::MAX),
    {
        let mut sum: u64 = 0;
        let mut k: usize = 0;
        while k < self.database.len()
            invariant
                k <= self.database.len(),
                self.wf(),
                sum == total_of(self.database@.take(k as int)),
                sum <= u32::MAX,
            decreases self.database.len() - k,
        {
            proof {
                assert(self.database@.take(k + 1).drop_last() =~= self.database@.take(k as int));
                self.database@[k as int].tuples.deep_view().unique_seq_to_set();
                lemma_total_prefix(self.database@, k + 1);
            }
            let len = self.database[k].tuples.len();
            if len as u64 > 4294967295u64 - sum {
                return false;
            }
            sum = sum + len as u64;
            k = k + 1;
        }
        assert(self.database@.take(self.database.len() as int) =~= self.database@);
        true
    }

    /// Whether the number of tuples over all relations is still `before_size`.
    pub fn check_size(&mut self, before_size: u32) -> (r: bool)
        requires
            old(self).wf(),
            old(self).total() <= u32::MAX,
            before_size <= old(self).total(),
        ensures
            *final(self) == *old(self),
            r == (old(self).total() == before_size),
    {
        let after_size = self.count_tuples();
        if after_size - before_size == 0 {
            return true;
        }
        false
    }

    /// Adds the tuples of `new_relation` to the stored relation of the same name, in sorted
    /// order, and gives the line `  column=value, ...` of each tuple that was new.
    pub fn unionize(&mut self, new_relation: Relation) -> (lines: Vec<String>)
        requires
            old(self).wf(),
            new_relation.wf(),
            old(self)@.contains_key(new_relation.name@),
        ensures
            final(self).wf(),
            final(self)@ == old(self)@.insert(
                new_relation.name@,
                RelView {
                    tuples: old(self)@[new_relation.name@].tuples.union(new_relation@.tuples),
                    ..old(self)@[new_relation.name@]
                },
            ),
            final(self).total() == old(self).total() + lines.len(),
            lines.deep_view() == union_lines(
                new_relation@.tuples,
                old(self)@[new_relation.name@].scheme,
                old(self)@[new_relation.name@].tuples,
            ),
    {
        let ghost k = new_relation.name@;
        let i = match self.find(&new_relation.name) {
            Some(i) => i,
            None => {
                return Vec::new();
            },
        };
        let ghost before = *self;
        let ghost old_set = self.database@[i as int]@.tuples;
        let stored_scheme = clone_row(&self.database[i].scheme);
        let tuples = sort_rows(&new_relation.tuples);
        let ghost ss = tuples.deep_view();
        let mut lines: Vec<String> = Vec::new();
        let mut m: usize = 0;
        proof {
            lemma_take_none_to_set(ss);
            assert(old_set.union(Set::<Tup>::empty()) =~= old_set);
            assert(ss.take(0) =~= Seq::<Tup>::empty());
            assert(lines.deep_view() =~= added_lines(ss.take(0), before@[k].scheme, old_set));
            assert(self.database@ =~= before.database@.update(i as int, self.database@[i as int]));
            lemma_update(&before, self, i as int);
        }
        while m < tuples.len()
            invariant
                m <= tuples.len(),
                i < self.database.len(),
                i < before.database.len(),
                before.wf(),
                self.wf(),
                ss == tuples.deep_view(),
                ss.no_duplicates(),
                before.database@[i as int].name@ == k,
                before@.contains_key(k),
                old_set == before@[k].tuples,
                stored_scheme.deep_view() == before@[k].scheme,
                self.database@ == before.database@.update(i as int, self.database@[i as int]),
                self.database@[i as int].name@ == k,
                self.database@[i as int]@ == (RelView { tuples: old_set.union(ss.take(m as int).to_set()), ..before@[k] }),
                self.total() == before.total() + lines.len(),
                lines.deep_view() == added_lines(ss.take(m as int), before@[k].scheme, old_set),
            decreases tuples.len() - m,
        {
            let ghost mid = *self;
            let ghost t = ss[m as int];
            let added = self.database[i].add_tuple(clone_row(&tuples[m]));
            assert(self.database@ =~= before.database@.update(i as int, self.database@[i as int]));
            assert(self.database@ =~= mid.database@.update(i as int, self.database@[i as int]));
            proof {
                lemma_take_to_set(ss, m as int);
                assert(!ss.take(m as int).contains(t));
                assert(added == !old_set.contains(t));
                assert(old_set.union(ss.take(m + 1).to_set()) =~= old_set.union(ss.take(m as int).to_set()).insert(t));
                lemma_update(&mid, self, i as int);
                lemma_update(&before, self, i as int);
                mid.database@[i as int].tuples.deep_view().unique_seq_to_set();
                self.database@[i as int].tuples.deep_view().unique_seq_to_set();
                assert(ss.take(m + 1).drop_last() =~= ss.take(m as int));
            }
            if added {
                let text = row_text(&stored_scheme, &tuples[m]);
                let mut line = String::from_str("  ");
                line.append(text.as_str());
                let ghost lv = lines.deep_view();
                lines.push(line);
                assert(lines.deep_view() =~= lv.push("  "@ + tuple_text(before@[k].scheme, t)));
            }
            m = m + 1;
        }
        proof {
            lemma_take_all(ss);
            lemma_update(&before, self, i as int);
            assert(ss.to_set() == new_relation@.tuples) by {
                assert forall|t: Tup| ss.to_set().contains(t) <==> new_relation@.tuples.contains(t) by {
                    vstd::seq_lib::to_multiset_contains(ss, t);
                    vstd::seq_lib::to_multiset_contains(new_relation.tuples.deep_view(), t);
                }
                assert(ss.to_set() =~= new_relation@.tuples);
            }
            lemma_sorted_rows(new_relation@.tuples, ss);
        }
        lines
    }

    /// The answer to a query on the stored relation `name`.
    fn answer(&self, name: &String, parameters: &Vec<String>) -> (r: Relation)
        requires
            self.wf(),
            self@.contains_key(name@),
            query_safe(self@[name@], parameters.deep_view()),
            parameters.len() <= u32::MAX,
        ensures
            r.wf(),
            r@ == query_result(self@[name@], parameters.deep_view()),
    {
        let idx = match self.find(name) {
            Some(idx) => idx,
            None => {
                return Relation::new(String::new(), Vec::new());
            },
        };
        let ghost rel = self@[name@];
        let ghost ps = parameters.deep_view();
        let mut result = self.database[idx].copy();
        let mut variable_name: Vec<String> = Vec::new();
        let mut variable_index: Vec<u32> = Vec::new();
        assert(rel.tuples.filter(|t: Tup| passes_before(ps, t, 0)) =~= rel.tuples);
        assert(variable_name.deep_view() =~= pick(ps, variable_index@));
        let mut i: usize = 0;
        while i < parameters.len()
            invariant
                i <= parameters.len(),
                parameters.len() <= u32::MAX,
                ps == parameters.deep_view(),
                query_safe(rel, ps),
                result.wf(),
                result@ == (RelView { tuples: rel.tuples.filter(|t: Tup| passes_before(ps, t, i as int)), ..rel }),
                variable_index@ == var_positions(ps, i as int),
                variable_name.len() == variable_index.len(),
                variable_name.deep_view() == pick(ps, variable_index@),
            decreases parameters.len() - i,
        {
            proof {
                lemma_first_index(ps, i as int);
                lemma_var_positions(ps, i as int);
                lemma_var_positions(ps, i + 1);
            }
            let ghost before = result@.tuples;
            let ghost next = rel.tuples.filter(|t: Tup| passes_before(ps, t, i + 1));
            if starts_with_quote(&parameters[i]) {
                proof {
                    assert forall|t: Tup| before.contains(t) implies i < t.len() by {
                        assert(is_filter(ps, i as int));
                    }
                }
                result = result.select_by_value(i, parameters[i].as_str());
                proof {
                    assert forall|t: Tup| result@.tuples.contains(t) <==> next.contains(t) by {
                        lemma_passes_step(ps, t, i as int);
                        if rel.tuples.contains(t) && passes_before(ps, t, i as int) {
                            assert(is_filter(ps, i as int));
                        }
                    }
                    assert(result@.tuples =~= next);
                }
            } else {
                match position_of(&variable_name, &parameters[i]) {
                    Some(m) => {
                        let first_seen = variable_index[m];
                        proof {
                            assert(variable_name.deep_view()[m as int] == ps[first_seen as int]);
                            assert(first_index(ps, i as int) == first_index(ps, first_seen as int));
                            assert forall|t: Tup| before.contains(t) implies i < t.len() && first_seen < t.len() by {
                                assert(is_filter(ps, i as int));
                            }
                        }
                        result = result.select_by_matching_indices(first_seen as usize, i);
                        proof {
                            assert forall|t: Tup| result@.tuples.contains(t) <==> next.contains(t) by {
                                lemma_passes_step(ps, t, i as int);
                                if rel.tuples.contains(t) && passes_before(ps, t, i as int) {
                                    assert(is_filter(ps, i as int));
                                }
                            }
                            assert(result@.tuples =~= next);
                        }
                    },
                    None => {
                        proof {
                            let f = first_index(ps, i as int);
                            if f < i {
                                lemma_first_index(ps, f);
                                assert(var_positions(ps, i as int).contains(f as u32));
                                let m = choose|m: int| 0 <= m < variable_index.len() && variable_index@[m] == f as u32;
                                assert(variable_name.deep_view()[m] == ps[i as int]);
                            }
                            assert forall|t: Tup| before.contains(t) <==> next.contains(t) by {
                                lemma_passes_step(ps, t, i as int);
                            }
                            assert(before =~= next);
                        }
                        let ghost vn = variable_name.deep_view();
                        variable_name.push(parameters[i].clone());
                        variable_index.push(i as u32);
                        assert(variable_name.deep_view() =~= vn.push(ps[i as int]));
                        assert(variable_name.deep_view() =~= pick(ps, variable_index@));
                    },
                }
            }
            i = i + 1;
        }
        let ghost vars = var_positions(ps, ps.len() as int);
        proof {
            lemma_var_positions(ps, ps.len() as int);
        }
        result = result.project(&variable_index);
        let ghost final_tuples = result@.tuples;
        let mut k: usize = 0;
        while k < variable_name.len()
            invariant
                k <= variable_name.len(),
                variable_name.len() == vars.len(),
                variable_index@ == vars,
                vars.len() <= u32::MAX,
                variable_name.deep_view() == pick(ps, vars),
                result.wf(),
                result@.name == rel.name,
                result@.tuples == final_tuples,
                result@.scheme.len() == vars.len(),
                forall|j: int| 0 <= j < k ==> result@.scheme[j] == ps[vars[j] as int],
            decreases variable_name.len() - k,
        {
            let v = variable_name[k].clone();
            assert(v@ == variable_name.deep_view()[k as int]);
            result = result.rename(k as u32, v);
            k = k + 1;
        }
        assert(result@.scheme =~= pick(ps, vars));
        result
    }

    /// The answer to a query on the relation `name`: its tuples that meet the constants and
    /// the repeated variables of `parameters`, with one column per variable.
    pub fn query_rule(&mut self, name: String, parameters: Vec<String>) -> (r: Relation)
        requires
            old(self).wf(),
            old(self)@.contains_key(name@),
            query_safe(old(self)@[name@], parameters.deep_view()),
            parameters.len() <= u32::MAX,
        ensures
            *final(self) == *old(self),
            r.wf(),
            r@ == query_result(old(self)@[name@], parameters.deep_view()),
    {
        self.answer(&name, &parameters)
    }

    /// The printed answer to a query: the line `name(params)? No` or `name(params)? Yes(n)`,
    /// then the text of each answer tuple, sorted, indented by two spaces.
    pub fn query(&mut self, name: String, parameters: Vec<String>) -> (lines: Vec<String>)
        requires
            old(self).wf(),
            old(self)@.contains_key(name@),
            query_safe(old(self)@[name@], parameters.deep_view()),
            parameters.len() <= u32::MAX,
        ensures
            *final(self) == *old(self),
            lines.len() >= 1,
            lines[0]@ == answer_text(
                name@,
                parameters.deep_view(),
                query_result(old(self)@[name@], parameters.deep_view()).tuples.len(),
            ),
            listed_sorted(
                lines.deep_view().drop_first(),
                query_result(old(self)@[name@], parameters.deep_view()).scheme,
                query_result(old(self)@[name@], parameters.deep_view()).tuples,
            ),
    {
        let mut result = self.answer(&name, &parameters);
        let header = result.query_verification(name, clone_row(&parameters));
        let strings = result.to_string_list();
        let ghost rows = result.tuples.deep_view();
        let ghost texts = rows.map_values(|t: Tup| tuple_text(result@.scheme, t));
        assert(strings.deep_view() =~= texts);
        let sorted = sort_strings(&strings);
        let ghost ss = sorted.deep_view();
        let ghost keep = |s: Seq<char>| s.len() > 0;
        let ghost indent = |s: Seq<char>| "  "@ + s;
        let mut lines: Vec<String> = Vec::new();
        lines.push(header);
        let mut m: usize = 0;
        assert(ss.take(0).filter(keep) =~= Seq::<Seq<char>>::empty());
        assert(lines.deep_view().drop_first() =~= ss.take(0).filter(keep).map_values(indent));
        while m < sorted.len()
            invariant
                m <= sorted.len(),
                ss == sorted.deep_view(),
                keep == (|s: Seq<char>| s.len() > 0),
                indent == (|s: Seq<char>| "  "@ + s),
                lines.len() >= 1,
                lines[0]@ == header@,
                lines.deep_view().drop_first() == ss.take(m as int).filter(keep).map_values(indent),
            decreases sorted.len() - m,
        {
            assert(ss.take(m + 1).drop_last() =~= ss.take(m as int));
            let ghost lv = lines.deep_view();
            if !sorted[m].as_str().is_empty() {
                let mut line = String::from_str("  ");
                line.append(sorted[m].as_str());
                lines.push(line);
                assert(lines.deep_view() =~= lv.push(indent(ss[m as int])));
            }
            assert(lines.deep_view().drop_first() =~= ss.take(m + 1).filter(keep).map_values(indent)) by {
                ss.take(m as int).lemma_filter_push(ss[m as int], keep);
                assert(ss.take(m + 1) =~= ss.take(m as int).push(ss[m as int]));
                let fl = ss.take(m as int).filter(keep);
                assert(fl.push(ss[m as int]).map_values(indent) =~= fl.map_values(indent).push(indent(ss[m as int])));
                if keep(ss[m as int]) {
                    assert(lines.deep_view().drop_first() =~= lv.drop_first().push(indent(ss[m as int])));
                }
            }
            m = m + 1;
        }
        assert(ss.take(sorted.len() as int) =~= ss);
        assert(listed_sorted(lines.deep_view().drop_first(), result@.scheme, result@.tuples)) by {
            assert(rows.to_set() == result@.tuples);
            assert(sorted_by(ss, string_order()));
        }
        lines
    }

    /// Whether the database holds a relation of that name.
    pub fn has_relation(&self, name: &String) -> (r: bool)
        requires
            self.wf(),
        ensures
            r == self@.contains_key(name@),
    {
        match self.find(name) {
            Some(_) => true,
            None => false,
        }
    }

    /// Whether the query `name(parameters)` can be answered: the relation exists, the
    /// parameters fit in `u32` positions, and every read it makes stays within the data.
    pub fn query_is_safe(&self, name: &String, parameters: &Vec<String>) -> (r: bool)
        requires
            self.wf(),
        ensures
            r == (self@.contains_key(name@) && parameters.len() <= u32::MAX && query_safe(
                self@[name@],
                parameters.deep_view(),
            )),
    {
        let idx = match self.find(name) {
            Some(i) => i,
            None => {
                return false;
            },
        };
        if parameters.len() > 4294967295 {
            return false;
        }
        let ghost ps = parameters.deep_view();
        let ghost rel = self@[name@];
        let rel_ref = &self.database[idx];
        // the positions of the variables, at their first occurrence
        let mut vars: Vec<u32> = Vec::new();
        let mut i: usize = 0;
        while i < parameters.len()
            invariant
                i <= parameters.len(),
                parameters.len() <= u32::MAX,
                ps == parameters.deep_view(),
                vars@ == var_positions(ps, i as int),
            decreases parameters.len() - i,
        {
            let f = first_position(parameters, i);
            if !starts_with_quote(&parameters[i]) && f == i {
                vars.push(i as u32);
            }
            i = i + 1;
        }
        assert(rel == rel_ref@);
        assert(rel.scheme.len() == rel_ref.scheme.len());
        let mut k: usize = 0;
        while k < vars.len()
            invariant
                k <= vars.len(),
                rel.scheme.len() == rel_ref.scheme.len(),
                rel == self@[name@],
                ps == parameters.deep_view(),
                vars@ == var_positions(ps, ps.len() as int),
                forall|j: int| 0 <= j < k ==> vars@[j] < rel_ref.scheme.len(),
            decreases vars.len() - k,
        {
            if vars[k] as usize >= rel_ref.scheme.len() {
                assert(!(vars@[k as int] < rel.scheme.len()));
                return false;
            }
            k = k + 1;
        }
        let ghost rows = rel_ref.tuples.deep_view();
        let mut m: usize = 0;
        while m < rel_ref.tuples.len()
            invariant
                m <= rel_ref.tuples.len(),
                rows == rel_ref.tuples.deep_view(),
                rel == rel_ref@,
                rel == self@[name@],
                ps == parameters.deep_view(),
                vars@ == var_positions(ps, ps.len() as int),
                forall|j: int| 0 <= j < m ==> tuple_safe(ps, #[trigger] rows[j], vars@),
            decreases rel_ref.tuples.len() - m,
        {
            if !tuple_is_safe(parameters, &rel_ref.tuples[m], &vars) {
                proof {
                    assert(rel_ref@.tuples.contains(rows[m as int]));
                    if query_safe(rel, ps) {
                        lemma_tuple_safe(rel, ps, rows[m as int]);
                    }
                }
                return false;
            }
            m = m + 1;
        }
        proof {
            assert(rel == rel_ref@);
            assert forall|t: Tup| rel.tuples.contains(t) implies tuple_safe(ps, t, vars@) by {
                let j = choose|j: int| 0 <= j < rows.len() && rows[j] == t;
            }
            lemma_all_tuples_safe(rel, ps);
        }
        true
    }
}

/// Reading the query `ps` on the tuple `t` stays within it.
pub open spec fn tuple_safe(ps: Seq<Seq<char>>, t: Tup, vars: Seq<u32>) -> bool {
    &&& forall|i: int| 0 <= i < ps.len() && is_filter(ps, i) && passes_before(ps, t, i) ==> i < t.len()
    &&& passes_before(ps, t, ps.len() as int) ==> forall|k: int| 0 <= k < vars.len() ==> vars[k] < t.len()
}

proof fn lemma_tuple_safe(rel: RelView, ps: Seq<Seq<char>>, t: Tup)
    requires
        rel.tuples.contains(t),
        query_safe(rel, ps),
    ensures
        tuple_safe(ps, t, var_positions(ps, ps.len() as int)),
{
    let vars = var_positions(ps, ps.len() as int);
    assert forall|i: int| 0 <= i < ps.len() && is_filter(ps, i) && passes_before(ps, t, i) implies i < t.len() by {
        assert(rel.tuples.contains(t) && is_filter(ps, i));
    }
    if passes_before(ps, t, ps.len() as int) {
        assert forall|k: int| 0 <= k < vars.len() implies vars[k] < t.len() by {
            assert(rel.tuples.contains(t));
            let v = vars[k];
        }
    }
}

proof fn lemma_all_tuples_safe(rel: RelView, ps: Seq<Seq<char>>)
    requires
        forall|t: Tup| rel.tuples.contains(t) ==> tuple_safe(ps, t, var_positions(ps, ps.len() as int)),
        forall|k: int|
            0 <= k < var_positions(ps, ps.len() as int).len() ==> var_positions(ps, ps.len() as int)[k]
                < rel.scheme.len(),
    ensures
        query_safe(rel, ps),
{
    let vars = var_positions(ps, ps.len() as int);
    assert forall|t: Tup, i: int|
        #![trigger rel.tuples.contains(t), is_filter(ps, i)]
        rel.tuples.contains(t) && 0 <= i < ps.len() && is_filter(ps, i) && passes_before(ps, t, i) implies i
            < t.len() by {
        assert(tuple_safe(ps, t, vars));
    }
    assert forall|t: Tup, k: int|
        #![trigger rel.tuples.contains(t), vars[k]]
        rel.tuples.contains(t) && passes_before(ps, t, ps.len() as int) && 0 <= k < vars.len() implies vars[k]
            < t.len() by {
        assert(tuple_safe(ps, t, vars));
    }
}

/// The first position of the parameter at position `i`.
fn first_position(ps: &Vec<String>, i: usize) -> (r: usize)
    requires
        i < ps.len(),
    ensures
        r as int == first_index(ps.deep_view(), i as int),
{
    let ghost d = ps.deep_view();
    proof {
        lemma_first_index(d, i as int);
    }
    let mut k: usize = 0;
    while ps[k] != ps[i]
        invariant
            k <= i < ps.len(),
            d == ps.deep_view(),
            first_from(d, d[i as int], 0) == first_from(d, d[i as int], k as int),
        decreases i - k,
    {
        assert(d[k as int] != d[i as int]);
        k = k + 1;
    }
    assert(d[k as int] == d[i as int]);
    k
}

/// Whether reading the query `ps` on the tuple `t` stays within it.
fn tuple_is_safe(ps: &Vec<String>, t: &Vec<String>, vars: &Vec<u32>) -> (r: bool)
    ensures
        r == tuple_safe(ps.deep_view(), t.deep_view(), vars@),
{
    let ghost d = ps.deep_view();
    let ghost tv = t.deep_view();
    let mut i: usize = 0;
    while i < ps.len()
        invariant
            i <= ps.len(),
            d == ps.deep_view(),
            tv == t.deep_view(),
            passes_before(d, tv, i as int),
            forall|j: int| 0 <= j < i && is_filter(d, j) && passes_before(d, tv, j) ==> j < tv.len(),
        decreases ps.len() - i,
    {
        proof {
            lemma_first_index(d, i as int);
            lemma_passes_step(d, tv, i as int);
        }
        let constant = starts_with_quote(&ps[i]);
        let f = first_position(ps, i);
        assert(constant == is_constant(d[i as int]));
        if constant || f < i {
            assert(is_filter(d, i as int));
            if i >= t.len() {
                return false;
            }
            let pass = if constant {
                t[i] == ps[i]
            } else {
                t[f] == t[i]
            };
            if !pass {
                proof {
                    assert(!passes(d, tv, i as int));
                    assert forall|j: int| 0 <= j < ps.len() && is_filter(d, j) && passes_before(d, tv, j) implies j < tv.len() by {
                        if j > i {
                            assert(passes(d, tv, i as int));
                        }
                    }
                    assert(!passes_before(d, tv, ps.len() as int)) by {
                        assert(!passes(d, tv, i as int));
                    }
                }
                return true;
            }
        }
        i = i + 1;
    }
    assert(passes_before(d, tv, ps.len() as int));
    let mut k: usize = 0;
    while k < vars.len()
        invariant
            k <= vars.len(),
            passes_before(d, tv, ps.len() as int),
            d == ps.deep_view(),
            tv == t.deep_view(),
            forall|j: int| 0 <= j < k ==> vars@[j] < t.len(),
        decreases vars.len() - k,
    {
        if vars[k] as usize >= t.len() {
            assert(!(vars@[k as int] < tv.len()));
            return false;
        }
        k = k + 1;
    }
    true
}

proof fn lemma_passes_step(ps: Seq<Seq<char>>, t: Tup, i: int)
    requires
        0 <= i,
    ensures
        passes_before(ps, t, i + 1) == (passes_before(ps, t, i) && passes(ps, t, i)),
{
    if passes_before(ps, t, i) && passes(ps, t, i) {
        assert forall|j: int| 0 <= j < i + 1 implies #[trigger] passes(ps, t, j) by {
            if j < i {
            }
        }
    }
}

fn position_of(v: &Vec<String>, s: &String) -> (r: Option<usize>)
    ensures
        match r {
            Some(m) => m < v.len() && v.deep_view()[m as int] == s@,
            None => !v.deep_view().contains(s@),
        },
{
    let mut i: usize = 0;
    while i < v.len()
        invariant
            i <= v.len(),
            forall|j: int| 0 <= j < i ==> v.deep_view()[j] != s@,
        decreases v.len() - i,
    {
        if v[i] == *s {
            return Some(i);
        }
        i = i + 1;
    }
    None
}

proof fn lemma_update(old: &Database, new: &Database, i: int)
    requires
        old.wf(),
        0 <= i < old.database.len(),
        new.database@ == old.database@.update(i, new.database@[i]),
        new.database@[i].name@ == old.database@[i].name@,
        new.database@[i].wf(),
    ensures
        new.wf(),
        new@ == old@.insert(old.database@[i].name@, new.database@[i]@),
        new.total() + old.database@[i]@.tuples.len() == old.total() + new.database@[i]@.tuples.len(),
{
    let k = old.database@[i].name@;
    let rv = new.database@[i]@;
    assert forall|j: int| 0 <= j < new.database.len() implies (#[trigger] new.database@[j]).wf() by {
        if j != i {
            assert(new.database@[j] == old.database@[j]);
        }
    }
    assert forall|a: int, b: int|
        0 <= a < new.database.len() && 0 <= b < new.database.len() && a != b implies (
        #[trigger] new.database@[a]).name@ != (#[trigger] new.database@[b]).name@ by {
        assert(old.database@[a].name@ != old.database@[b].name@);
    }
    assert forall|x: Seq<char>| #[trigger] new@.contains_key(x) == old@.insert(k, rv).contains_key(x)
        && (new@.contains_key(x) ==> new@[x] == old@.insert(k, rv)[x]) by {
        if x == k {
            new.lemma_index(i);
        } else {
            if old.has(x) {
                let j = old.index_of(x);
                old.lemma_index(j);
                new.lemma_index(j);
            }
            if new.has(x) {
                let j = new.index_of(x);
                new.lemma_index(j);
                old.lemma_index(j);
            }
        }
    }
    assert(new@ =~= old@.insert(k, rv));
    lemma_total_update(old.database@, i, new.database@[i]);
}

proof fn lemma_total_update(s: Seq<Relation>, i: int, r: Relation)
    requires
        0 <= i < s.len(),
    ensures
        total_of(s.update(i, r)) + s[i]@.tuples.len() == total_of(s) + r@.tuples.len(),
    decreases s.len(),
{
    if i == s.len() - 1 {
        assert(s.update(i, r).drop_last() =~= s.drop_last());
    } else {
        lemma_total_update(s.drop_last(), i, r);
        assert(s.update(i, r).drop_last() =~= s.drop_last().update(i, r));
    }
}

proof fn lemma_total_prefix(s: Seq<Relation>, k: int)
    requires
        0 <= k <= s.len(),
    ensures
        total_of(s.take(k)) <= total_of(s),
    decreases s.len() - k,
{
    if k < s.len() {
        lemma_total_prefix(s, k + 1);
        assert(s.take(k + 1).drop_last() =~= s.take(k));
    } else {
        assert(s.take(k) =~= s);
    }
}

/// A query parameter in quotes is a constant; any other is a variable.
pub open spec fn is_constant(p: Seq<char>) -> bool {
    p.len() > 0 && p[0] == '\''
}

/// The first position at or after `k` that holds `x`.
pub open spec fn first_from(ps: Seq<Seq<char>>, x: Seq<char>, k: int) -> int
    decreases ps.len() - k,
{
    if k < 0 || k >= ps.len() {
        k
    } else if ps[k] == x {
        k
    } else {
        first_from(ps, x, k + 1)
    }
}

/// The first position of the parameter at position `i`.
pub open spec fn first_index(ps: Seq<Seq<char>>, i: int) -> int {
    first_from(ps, ps[i], 0)
}

/// The condition a tuple must meet at parameter position `i`: the constant there, or the
/// entry at the first position of the same variable.
pub open spec fn passes(ps: Seq<Seq<char>>, t: Tup, i: int) -> bool {
    if is_constant(ps[i]) {
        i < t.len() && t[i] == ps[i]
    } else if first_index(ps, i) < i {
        i < t.len() && t[first_index(ps, i)] == t[i]
    } else {
        true
    }
}

/// Position `i` filters the tuples: a constant, or a variable seen before.
pub open spec fn is_filter(ps: Seq<Seq<char>>, i: int) -> bool {
    is_constant(ps[i]) || first_index(ps, i) < i
}

/// A tuple meets the conditions of the first `n` parameter positions.
pub open spec fn passes_before(ps: Seq<Seq<char>>, t: Tup, n: int) -> bool {
    forall|j: int| 0 <= j < n ==> #[trigger] passes(ps, t, j)
}

/// The positions, among the first `n`, of the first occurrence of each variable.
pub open spec fn var_positions(ps: Seq<Seq<char>>, n: int) -> Seq<u32>
    decreases n,
{
    if n <= 0 {
        Seq::empty()
    } else {
        let v = var_positions(ps, n - 1);
        if !is_constant(ps[n - 1]) && first_index(ps, n - 1) == n - 1 {
            v.push((n - 1) as u32)
        } else {
            v
        }
    }
}

/// The answer to the query `ps` on `r`: the tuples meeting every constant and every repeated
/// variable, cut to the first occurrence of each variable, with the variables as columns.
pub open spec fn query_result(r: RelView, ps: Seq<Seq<char>>) -> RelView {
    let vars = var_positions(ps, ps.len() as int);
    RelView {
        name: r.name,
        scheme: pick(ps, vars),
        tuples: r.tuples.filter(|t: Tup| passes_before(ps, t, ps.len() as int)).map(|t: Tup| pick(t, vars)),
    }
}

/// Answering the query `ps` on `r` reads only columns and entries that exist: each selection
/// reads the entry of every tuple that the selections before it kept, and the projection reads
/// the scheme and every tuple kept at the positions of the variables.
pub open spec fn query_safe(r: RelView, ps: Seq<Seq<char>>) -> bool {
    let vars = var_positions(ps, ps.len() as int);
    &&& forall|k: int| 0 <= k < vars.len() ==> vars[k] < r.scheme.len()
    &&& forall|t: Tup, i: int|
        #![trigger r.tuples.contains(t), is_filter(ps, i)]
        r.tuples.contains(t) && 0 <= i < ps.len() && is_filter(ps, i) && passes_before(ps, t, i) ==> i < t.len()
    &&& forall|t: Tup, k: int|
        #![trigger r.tuples.contains(t), vars[k]]
        r.tuples.contains(t) && passes_before(ps, t, ps.len() as int) && 0 <= k < vars.len() ==> vars[k]
            < t.len()
}

/// The printed answer lines: `lines` are the texts of the tuples, sorted, without the empty
/// ones, each indented by two spaces.
pub open spec fn listed_sorted(lines: Seq<Seq<char>>, scheme: Seq<Seq<char>>, tuples: Set<Tup>) -> bool {
    exists|rows: Seq<Tup>, ss: Seq<Seq<char>>|
        #![trigger rows.to_set(), sorted_by(ss, string_order())]
        rows.no_duplicates() && rows.to_set() == tuples && ss.to_multiset() == rows.map_values(
            |t: Tup| tuple_text(scheme, t),
        ).to_multiset() && sorted_by(ss, string_order()) && lines == ss.filter(|s: Seq<char>| s.len() > 0).map_values(
            |s: Seq<char>| "  "@ + s,
        )
}

/// The search from `k` stops at the first occurrence of `x` at or after `k`.
pub proof fn lemma_first_from(ps: Seq<Seq<char>>, x: Seq<char>, k: int, i: int)
    requires
        0 <= k <= i < ps.len(),
        ps[i] == x,
    ensures
        k <= first_from(ps, x, k) <= i,
        ps[first_from(ps, x, k)] == x,
        forall|j: int| k <= j < first_from(ps, x, k) ==> ps[j] != x,
    decreases i - k,
{
    if ps[k] != x {
        lemma_first_from(ps, x, k + 1, i);
    }
}

/// The first position of a parameter holds the same parameter, and nothing before it does.
pub proof fn lemma_first_index(ps: Seq<Seq<char>>, i: int)
    requires
        0 <= i < ps.len(),
    ensures
        0 <= first_index(ps, i) <= i,
        ps[first_index(ps, i)] == ps[i],
        forall|j: int| 0 <= j < first_index(ps, i) ==> ps[j] != ps[i],
        first_index(ps, first_index(ps, i)) == first_index(ps, i),
{
    lemma_first_from(ps, ps[i], 0, i);
}

proof fn lemma_var_positions(ps: Seq<Seq<char>>, n: int)
    requires
        0 <= n <= ps.len(),
        ps.len() <= u32::MAX,
    ensures
        forall|m: int| 0 <= m < var_positions(ps, n).len() ==> {
            let v = #[trigger] var_positions(ps, n)[m] as int;
            &&& 0 <= v < n
            &&& !is_constant(ps[v])
            &&& first_index(ps, v) == v
        },
        forall|v: int|
            0 <= v < n && !is_constant(ps[v]) && first_index(ps, v) == v ==> var_positions(ps, n).contains(
                v as u32,
            ),
        var_positions(ps, n).len() <= n,
    decreases n,
{
    if n > 0 {
        lemma_var_positions(ps, n - 1);
        let prev = var_positions(ps, n - 1);
        if !is_constant(ps[n - 1]) && first_index(ps, n - 1) == n - 1 {
            assert(var_positions(ps, n) == prev.push((n - 1) as u32));
            assert forall|v: int|
                0 <= v < n && !is_constant(ps[v]) && first_index(ps, v) == v implies var_positions(ps, n).contains(
                v as u32,
            ) by {
                if v < n - 1 {
                    let m = choose|m: int| 0 <= m < prev.len() && prev[m] == v as u32;
                    assert(var_positions(ps, n)[m] == v as u32);
                } else {
                    assert(var_positions(ps, n)[prev.len() as int] == v as u32);
                }
            }
        }
    }
}

/// The lines `  column=value, ...` of the tuples of `ss`, in order, that `old_tuples` lacks.
pub open spec fn added_lines(ss: Seq<Tup>, scheme: Seq<Seq<char>>, old_tuples: Set<Tup>) -> Seq<Seq<char>>
    decreases ss.len(),
{
    if ss.len() == 0 {
        Seq::empty()
    } else {
        let rest = added_lines(ss.drop_last(), scheme, old_tuples);
        if old_tuples.contains(ss.last()) {
            rest
        } else {
            rest.push("  "@ + tuple_text(scheme, ss.last()))
        }
    }
}

/// The number of tuples over a sequence of relations.
pub open spec fn total_of(s: Seq<Relation>) -> nat
    decreases s.len(),
{
    if s.len() == 0 {
        0
    } else {
        total_of(s.drop_last()) + s.last()@.tuples.len()
    }
}

proof fn lemma_var_positions_increasing(ps: Seq<Seq<char>>, n: int)
    requires
        0 <= n <= ps.len(),
        ps.len() <= u32::MAX,
    ensures
        forall|i: int, j: int|
            0 <= i < j < var_positions(ps, n).len() ==> var_positions(ps, n)[i] < var_positions(ps, n)[j],
    decreases n,
{
    if n > 0 {
        lemma_var_positions_increasing(ps, n - 1);
        lemma_var_positions(ps, n - 1);
        let prev = var_positions(ps, n - 1);
        if !is_constant(ps[n - 1]) && first_index(ps, n - 1) == n - 1 {
            assert forall|i: int, j: int|
                0 <= i < j < var_positions(ps, n).len() implies var_positions(ps, n)[i] < var_positions(ps, n)[j] by {
                assert(var_positions(ps, n) == prev.push((n - 1) as u32));
                if j == prev.len() {
                    assert(prev[i] < n - 1);
                }
            }
        }
    }
}

proof fn lemma_increasing_low(s: Seq<u32>, m: int)
    requires
        forall|i: int, j: int| 0 <= i < j < s.len() ==> s[i] < s[j],
        0 <= m < s.len(),
    ensures
        s[m] >= m,
    decreases m,
{
    if m > 0 {
        lemma_increasing_low(s, m - 1);
    }
}

proof fn lemma_increasing_high(s: Seq<u32>, n: int, m: int)
    requires
        forall|i: int, j: int| 0 <= i < j < s.len() ==> s[i] < s[j],
        forall|i: int| 0 <= i < s.len() ==> s[i] < n,
        0 <= m < s.len(),
    ensures
        s[m] <= n - (s.len() - m),
    decreases s.len() - m,
{
    if m < s.len() - 1 {
        lemma_increasing_high(s, n, m + 1);
    }
}

/// A query answer has distinct column names and an entry per column in each tuple; it has at
/// most a column per parameter, and as many only when the parameters are distinct variables.
pub proof fn lemma_query_arity(rel: RelView, ps: Seq<Seq<char>>)
    requires
        ps.len() <= u32::MAX,
    ensures
        arity_ok(query_result(rel, ps)),
        query_result(rel, ps).scheme.len() <= ps.len(),
        query_result(rel, ps).scheme.len() == ps.len() ==> ps.no_duplicates(),
        query_result(rel, ps).scheme.len() == ps.len() ==> query_result(rel, ps).scheme == ps,
{
    let n = ps.len() as int;
    let vars = var_positions(ps, n);
    lemma_var_positions(ps, n);
    lemma_var_positions_increasing(ps, n);
    let q = query_result(rel, ps);
    assert(q.scheme.len() == vars.len());
    assert forall|i: int, j: int| 0 <= i < q.scheme.len() && 0 <= j < q.scheme.len() && i != j implies q.scheme[i]
        != q.scheme[j] by {
        let a = vars[i] as int;
        let b = vars[j] as int;
        assert(q.scheme[i] == ps[a] && q.scheme[j] == ps[b]);
        if i < j {
            assert(a < b);
            lemma_first_index(ps, b);
        } else {
            assert(b < a);
            lemma_first_index(ps, a);
        }
    }
    assert forall|t: Tup| q.tuples.contains(t) implies t.len() == q.scheme.len() by {
        let t0 = choose|t0: Tup|
            rel.tuples.filter(|t: Tup| passes_before(ps, t, ps.len() as int)).contains(t0) && pick(t0, vars) == t;
    }
    if vars.len() == n {
        assert forall|m: int| 0 <= m < n implies vars[m] == m by {
            lemma_increasing_low(vars, m);
            lemma_increasing_high(vars, n, m);
        }
        assert(pick(ps, vars) =~= ps);
        assert forall|i: int, j: int| 0 <= i < n && 0 <= j < n && i != j implies ps[i] != ps[j] by {
            assert(vars[i] == i && vars[j] == j);
            if i < j {
                lemma_first_index(ps, j);
            } else {
                lemma_first_index(ps, i);
            }
        }
    }
}

/// The tuples of `s` in row order, each once.
pub open spec fn sorted_rows(s: Set<Tup>) -> Seq<Tup> {
    choose|ss: Seq<Tup>| sorted_by(ss, row_order()) && ss.no_duplicates() && ss.to_set() == s
}

/// The lines `  column=value, ...` of the tuples of `new` that `old` lacks, in row order.
pub open spec fn union_lines(new: Set<Tup>, scheme: Seq<Seq<char>>, old: Set<Tup>) -> Seq<Seq<char>> {
    added_lines(sorted_rows(new), scheme, old)
}

/// A sorted sequence of the tuples of `s`, each once, is `sorted_rows(s)`.
pub proof fn lemma_sorted_rows(s: Set<Tup>, ss: Seq<Tup>)
    requires
        sorted_by(ss, row_order()),
        ss.no_duplicates(),
        ss.to_set() == s,
    ensures
        sorted_rows(s) == ss,
{
    lemma_orders_strict_total();
    let c = sorted_rows(s);
    lemma_sorted_set_unique(c, ss, row_order());
}

/// For a finite set, `sorted_rows` lists its tuples in row order, each once.
pub proof fn lemma_sorted_rows_finite(s: Set<Tup>)
    requires
        s.finite(),
    ensures
        sorted_by(sorted_rows(s), row_order()),
        sorted_rows(s).no_duplicates(),
        sorted_rows(s).to_set() == s,
{
    lemma_orders_strict_total();
    lemma_sorted_exists(s, row_order());
}

/// No line is added exactly when every tuple of `ss` is in `old`.
pub proof fn lemma_added_lines_none(ss: Seq<Tup>, scheme: Seq<Seq<char>>, old: Set<Tup>)
    ensures
        (added_lines(ss, scheme, old).len() == 0) == (forall|i: int| 0 <= i < ss.len() ==> old.contains(#[trigger] ss[i])),
    decreases ss.len(),
{
    if ss.len() > 0 {
        let d = ss.drop_last();
        lemma_added_lines_none(d, scheme, old);
        let all_d = forall|i: int| 0 <= i < d.len() ==> old.contains(#[trigger] d[i]);
        let all_s = forall|i: int| 0 <= i < ss.len() ==> old.contains(#[trigger] ss[i]);
        if old.contains(ss.last()) {
            if all_d {
                assert forall|i: int| 0 <= i < ss.len() implies old.contains(#[trigger] ss[i]) by {
                    if i < d.len() {
                        assert(d[i] == ss[i]);
                    }
                }
            }
            if all_s {
                assert forall|i: int| 0 <= i < d.len() implies old.contains(#[trigger] d[i]) by {
                    assert(d[i] == ss[i]);
                }
            }
            assert(all_s == all_d);
        } else {
            assert(!old.contains(ss[ss.len() - 1]));
            assert(!all_s);
        }
    }
}

/// The query answers of a finite relation are finite.
pub proof fn lemma_query_finite(r: RelView, ps: Seq<Seq<char>>)
    requires
        r.tuples.finite(),
    ensures
        query_result(r, ps).tuples.finite(),
{
    let f = |t: Tup| passes_before(ps, t, ps.len() as int);
    let kept = r.tuples.filter(f);
    assert(kept.subset_of(r.tuples));
    vstd::set_lib::lemma_set_subset_finite(r.tuples, kept);
    let vars = var_positions(ps, ps.len() as int);
    kept.lemma_map_finite(|t: Tup| pick(t, vars));
}

/// Adding the same tuples a second time prints nothing: after `unionize` with a finite set of
/// tuples, the lines for the same set are empty.
pub proof fn law_union_idempotent(new: Set<Tup>, scheme: Seq<Seq<char>>, old: Set<Tup>)
    requires
        new.finite(),
    ensures
        union_lines(new, scheme, old.union(new)).len() == 0,
{
    lemma_sorted_rows_finite(new);
    let ss = sorted_rows(new);
    assert forall|i: int| 0 <= i < ss.len() implies old.union(new).contains(#[trigger] ss[i]) by {
        assert(ss.to_set().contains(ss[i]));
    }
    lemma_added_lines_none(ss, scheme, old.union(new));
}

/// The lines of `unionize` for tuples that are all stored already are empty, and only then.
pub proof fn law_union_lines_none(new: Set<Tup>, scheme: Seq<Seq<char>>, old: Set<Tup>)
    requires
        new.finite(),
    ensures
        (union_lines(new, scheme, old).len() == 0) == new.subset_of(old),
{
    lemma_sorted_rows_finite(new);
    let ss = sorted_rows(new);
    lemma_added_lines_none(ss, scheme, old);
    if union_lines(new, scheme, old).len() == 0 {
        assert forall|t: Tup| new.contains(t) implies old.contains(t) by {
            assert(ss.to_set().contains(t));
            let i = choose|i: int| 0 <= i < ss.len() && ss[i] == t;
        }
    }
    if new.subset_of(old) {
        assert forall|i: int| 0 <= i < ss.len() implies old.contains(#[trigger] ss[i]) by {
            assert(ss.to_set().contains(ss[i]));
        }
    }
}

proof fn lemma_all_variables(ps: Seq<Seq<char>>, n: int)
    requires
        0 <= n <= ps.len(),
        ps.len() <= u32::MAX,
        ps.no_duplicates(),
        forall|i: int| 0 <= i < ps.len() ==> !is_constant(#[trigger] ps[i]),
    ensures
        var_positions(ps, n) == Seq::new(n as nat, |i: int| i as u32),
        forall|i: int| 0 <= i < n ==> !is_filter(ps, i),
    decreases n,
{
    if n > 0 {
        lemma_all_variables(ps, n - 1);
        lemma_first_index(ps, n - 1);
        assert(first_index(ps, n - 1) == n - 1) by {
            if first_index(ps, n - 1) < n - 1 {
                assert(ps[first_index(ps, n - 1)] == ps[n - 1]);
            }
        }
        assert(var_positions(ps, n) =~= Seq::new(n as nat, |i: int| i as u32));
    }
}

/// Law: a query whose parameters are distinct variables, one per column of a relation whose
/// tuples have an entry per column, answers with every tuple, under the parameters as columns.
pub proof fn law_query_all_variables(r: RelView, ps: Seq<Seq<char>>)
    requires
        ps.len() <= u32::MAX,
        ps.no_duplicates(),
        forall|i: int| 0 <= i < ps.len() ==> !is_constant(#[trigger] ps[i]),
        r.scheme.len() == ps.len(),
        forall|t: Tup| r.tuples.contains(t) ==> t.len() == ps.len(),
    ensures
        query_safe(r, ps),
        query_result(r, ps) == (RelView { name: r.name, scheme: ps, tuples: r.tuples }),
{
    let n = ps.len() as int;
    lemma_all_variables(ps, n);
    let vars = var_positions(ps, n);
    assert forall|t: Tup| #[trigger] r.tuples.contains(t) implies passes_before(ps, t, n) && pick(t, vars) == t by {
        assert forall|j: int| 0 <= j < n implies #[trigger] passes(ps, t, j) by {
            assert(!is_filter(ps, j));
        }
        assert(pick(t, vars) =~= t);
    }
    assert(pick(ps, vars) =~= ps);
    let kept = r.tuples.filter(|t: Tup| passes_before(ps, t, ps.len() as int));
    assert(kept =~= r.tuples);
    assert(kept.map(|t: Tup| pick(t, vars)) =~= r.tuples) by {
        assert forall|t: Tup| r.tuples.contains(t) implies kept.map(|t: Tup| pick(t, vars)).contains(t) by {
            assert(kept.contains(t) && pick(t, vars) == t);
        }
    }
}

/// Tuple `u` answers the query `ps`: it holds each constant at the constant's position, and
/// equal parameters (the same variable, or the same constant) take equal entries wherever they
/// stand.
pub open spec fn answers_query(ps: Seq<Seq<char>>, u: Tup) -> bool {
    &&& forall|i: int| 0 <= i < ps.len() && is_constant(#[trigger] ps[i]) ==> u[i] == ps[i]
    &&& forall|i: int, j: int| 0 <= i < ps.len() && 0 <= j < ps.len() && #[trigger] ps[i] == #[trigger] ps[j] ==> u[i] == u[j]
}

/// `w` gives each variable of `vars` the entry that `u` holds wherever the query `ps` names it.
pub open spec fn binds_variables(ps: Seq<Seq<char>>, vars: Seq<Seq<char>>, u: Tup, w: Tup) -> bool {
    &&& w.len() == vars.len()
    &&& forall|k: int, i: int| 0 <= k < vars.len() && 0 <= i < ps.len() && #[trigger] ps[i] == #[trigger] vars[k] ==> w[k] == u[i]
}

proof fn lemma_passes_iff_answers(ps: Seq<Seq<char>>, u: Tup)
    requires
        u.len() >= ps.len(),
    ensures
        passes_before(ps, u, ps.len() as int) <==> answers_query(ps, u),
{
    let n = ps.len() as int;
    if passes_before(ps, u, n) {
        assert forall|i: int| 0 <= i < n && is_constant(#[trigger] ps[i]) implies u[i] == ps[i] by {
            assert(passes(ps, u, i));
        }
        assert forall|i: int, j: int| 0 <= i < n && 0 <= j < n && #[trigger] ps[i] == #[trigger] ps[j] implies u[i] == u[j] by {
            assert(passes(ps, u, i));
            assert(passes(ps, u, j));
            lemma_first_index(ps, i);
            lemma_first_index(ps, j);
            if !is_constant(ps[i]) {
                assert(first_index(ps, i) == first_index(ps, j));
                let f = first_index(ps, i);
                assert(u[f] == u[i]);
                assert(u[f] == u[j]);
            }
        }
    }
    if answers_query(ps, u) {
        assert forall|i: int| 0 <= i < n implies #[trigger] passes(ps, u, i) by {
            lemma_first_index(ps, i);
            let f = first_index(ps, i);
            if !is_constant(ps[i]) && f < i {
                assert(ps[f] == ps[i]);
            }
        }
    }
}

/// Law: the answer to a query lists each variable once, in the order of first appearance, and
/// nothing else; its tuples are exactly those that give each variable the value that a tuple of
/// the relation answering the query holds wherever the query names it. So a tuple is kept only
/// if it holds every constant, and every variable takes one value at all its positions.
pub proof fn law_query_answers(r: RelView, ps: Seq<Seq<char>>)
    requires
        ps.len() <= u32::MAX,
        forall|u: Tup| r.tuples.contains(u) ==> u.len() >= ps.len(),
    ensures
        query_result(r, ps).scheme.no_duplicates(),
        forall|k: int|
            0 <= k < query_result(r, ps).scheme.len() ==> !is_constant(#[trigger] query_result(r, ps).scheme[k])
                && ps.contains(query_result(r, ps).scheme[k]),
        forall|i: int| 0 <= i < ps.len() && !is_constant(#[trigger] ps[i]) ==> query_result(r, ps).scheme.contains(ps[i]),
        forall|k1: int, k2: int|
            0 <= k1 < k2 < query_result(r, ps).scheme.len() ==> first_from(ps, #[trigger] query_result(r, ps).scheme[k1], 0)
                < first_from(ps, #[trigger] query_result(r, ps).scheme[k2], 0),
        forall|w: Tup|
            query_result(r, ps).tuples.contains(w) <==> exists|u: Tup|
                #[trigger] r.tuples.contains(u) && answers_query(ps, u) && binds_variables(ps, query_result(r, ps).scheme, u, w),
{
    let n = ps.len() as int;
    lemma_var_positions(ps, n);
    lemma_var_positions_increasing(ps, n);
    let vars = var_positions(ps, n);
    let q = query_result(r, ps);
    let sc = q.scheme;
    assert(sc == pick(ps, vars));
    assert forall|k: int| 0 <= k < sc.len() implies sc[k] == ps[vars[k] as int] && 0 <= vars[k] < n && first_index(ps, vars[k] as int) == vars[k] as int by {
        assert(vars[k] == var_positions(ps, n)[k]);
    }
    assert(sc.no_duplicates()) by {
        assert forall|a: int, b: int| 0 <= a < sc.len() && 0 <= b < sc.len() && a != b implies sc[a] != sc[b] by {
            if sc[a] == sc[b] {
                assert(first_index(ps, vars[a] as int) == first_index(ps, vars[b] as int));
                if a < b {
                    assert(vars[a] < vars[b]);
                } else {
                    assert(vars[b] < vars[a]);
                }
            }
        }
    }
    assert forall|k: int| 0 <= k < sc.len() implies !is_constant(#[trigger] sc[k]) && ps.contains(sc[k]) by {
        assert(vars[k] == var_positions(ps, n)[k]);
    }
    assert forall|i: int| 0 <= i < n && !is_constant(#[trigger] ps[i]) implies sc.contains(ps[i]) by {
        lemma_first_index(ps, i);
        let f = first_index(ps, i);
        lemma_first_index(ps, f);
        assert(vars.contains(f as u32));
        let k = choose|k: int| 0 <= k < vars.len() && vars[k] == f as u32;
        assert(sc[k] == ps[i]);
    }
    assert forall|k1: int, k2: int| 0 <= k1 < k2 < sc.len() implies first_from(ps, #[trigger] sc[k1], 0) < first_from(ps, #[trigger] sc[k2], 0) by {
        assert(vars[k1] < vars[k2]);
        assert(first_index(ps, vars[k1] as int) == first_from(ps, sc[k1], 0));
        assert(first_index(ps, vars[k2] as int) == first_from(ps, sc[k2], 0));
    }
    let kept = r.tuples.filter(|t: Tup| passes_before(ps, t, n));
    assert forall|w: Tup| q.tuples.contains(w) <==> exists|u: Tup|
        #[trigger] r.tuples.contains(u) && answers_query(ps, u) && binds_variables(ps, sc, u, w) by {
        if q.tuples.contains(w) {
            let u = choose|u: Tup| kept.contains(u) && pick(u, vars) == w;
            lemma_passes_iff_answers(ps, u);
            assert forall|k: int, i: int| 0 <= k < sc.len() && 0 <= i < ps.len() && #[trigger] ps[i] == #[trigger] sc[k] implies w[k] == u[i] by {
                assert(sc[k] == ps[vars[k] as int]);
                assert(w[k] == u[vars[k] as int]);
            }
            assert(r.tuples.contains(u) && answers_query(ps, u) && binds_variables(ps, sc, u, w));
        }
        if exists|u: Tup| #[trigger] r.tuples.contains(u) && answers_query(ps, u) && binds_variables(ps, sc, u, w) {
            let u = choose|u: Tup| #[trigger] r.tuples.contains(u) && answers_query(ps, u) && binds_variables(ps, sc, u, w);
            lemma_passes_iff_answers(ps, u);
            assert(kept.contains(u));
            assert forall|k: int| 0 <= k < w.len() implies w[k] == pick(u, vars)[k] by {
                assert(sc[k] == ps[vars[k] as int]);
                assert(ps[vars[k] as int] == sc[k]);
            }
            assert(w =~= pick(u, vars));
        }
    }
}

} // verus!
