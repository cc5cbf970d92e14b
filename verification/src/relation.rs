use vstd::prelude::*;
use vstd::string::*;
use crate::text::{clone_row, decimal, join, join_strings, push_decimal};
use crate::database::{first_from, lemma_first_from};

verus! {

/// A tuple of a relation, as values.
pub type Tup = Seq<Seq<char>>;

/// A relation as values: its name, its column names and its set of tuples.
pub struct RelView {
    pub name: Seq<char>,
    pub scheme: Seq<Seq<char>>,
    pub tuples: Set<Seq<Seq<char>>>,
}

/// A named relation: column names and a set of tuples of strings. The tuples are kept in the
/// order they were added, each once.
pub struct Relation {
    pub name: String,
    pub scheme: Vec<String>,
    pub tuples: Vec<Vec<String>>,
}

impl View for Relation {
    type V = RelView;

    open spec fn view(&self) -> RelView {
        RelView { name: self.name@, scheme: self.scheme.deep_view(), tuples: self.tuples.deep_view().to_set() }
    }
}

/// The entries of `t` at the positions `idx`, in that order.
pub open spec fn pick<A>(t: Seq<A>, idx: Seq<u32>) -> Seq<A> {
    idx.map_values(|k: u32| t[k as int])
}

/// Two columns of the left and right schemes carry the same name.
pub open spec fn same_column(ls: Seq<Seq<char>>, rs: Seq<Seq<char>>, i: int, j: int) -> bool {
    0 <= i < ls.len() && 0 <= j < rs.len() && ls[i] == rs[j]
}

/// Two tuples agree on every pair of columns that carry the same name.
pub open spec fn joinable_val(ls: Seq<Seq<char>>, rs: Seq<Seq<char>>, lt: Tup, rt: Tup) -> bool {
    forall|i: int, j: int|
        #![trigger ls[i], rs[j]]
        same_column(ls, rs, i, j) ==> i < lt.len() && j < rt.len() && lt[i] == rt[j]
}

/// Every pair of same-named columns before `(i, j)`, in the order `joinable` visits them,
/// lies within both tuples and agrees.
pub open spec fn agree_before(ls: Seq<Seq<char>>, rs: Seq<Seq<char>>, lt: Tup, rt: Tup, i: int, j: int) -> bool {
    forall|a: int, b: int|
        #![trigger ls[a], rs[b]]
        same_column(ls, rs, a, b) && (a < i || (a == i && b < j)) ==> a < lt.len() && b < rt.len() && lt[a]
            == rt[b]
}

/// `joinable` reads only entries that exist: it stops at the first disagreement, so the first
/// pair of same-named columns whose entries it cannot read comes after one that disagrees.
pub open spec fn joinable_safe(ls: Seq<Seq<char>>, rs: Seq<Seq<char>>, lt: Tup, rt: Tup) -> bool {
    forall|i: int, j: int|
        #![trigger ls[i], rs[j]]
        same_column(ls, rs, i, j) && agree_before(ls, rs, lt, rt, i, j) ==> i < lt.len() && j < rt.len()
}

/// The entries of `rt` in the right columns whose names the left scheme lacks.
pub open spec fn extra_entries(ls: Seq<Seq<char>>, rs: Seq<Seq<char>>, rt: Tup) -> Tup
    decreases rs.len(),
{
    if rs.len() == 0 {
        Seq::empty()
    } else {
        let e = extra_entries(ls, rs.drop_last(), rt);
        if ls.contains(rs.last()) {
            e
        } else {
            e.push(rt[rs.len() - 1])
        }
    }
}

/// The left tuple followed by the right tuple's entries in columns the left scheme lacks.
pub open spec fn join_tuple_val(ls: Seq<Seq<char>>, rs: Seq<Seq<char>>, lt: Tup, rt: Tup) -> Tup {
    lt + extra_entries(ls, rs, rt)
}

/// `join_tuple` reads only entries that exist.
pub open spec fn join_tuple_safe(ls: Seq<Seq<char>>, rs: Seq<Seq<char>>, rt: Tup) -> bool {
    forall|i: int| 0 <= i < rs.len() && !ls.contains(#[trigger] rs[i]) ==> i < rt.len()
}

/// The left scheme followed by the right scheme's names that are not yet in it.
pub open spec fn join_scheme(ls: Seq<Seq<char>>, rs: Seq<Seq<char>>) -> Seq<Seq<char>>
    decreases rs.len(),
{
    if rs.len() == 0 {
        ls
    } else {
        let s = join_scheme(ls, rs.drop_last());
        if s.contains(rs.last()) {
            s
        } else {
            s.push(rs.last())
        }
    }
}

/// The natural join of two sets of tuples.
pub open spec fn join_set(ls: Seq<Seq<char>>, rs: Seq<Seq<char>>, left: Set<Tup>, right: Set<Tup>) -> Set<Tup> {
    Set::new(
        |t: Tup|
            exists|l: Tup, r: Tup|
                #![trigger left.contains(l), right.contains(r)]
                left.contains(l) && right.contains(r) && joinable_val(ls, rs, l, r) && t == join_tuple_val(
                    ls,
                    rs,
                    l,
                    r,
                ),
    )
}

/// `join` reads only entries that exist.
pub open spec fn join_safe(ls: Seq<Seq<char>>, rs: Seq<Seq<char>>, left: Set<Tup>, right: Set<Tup>) -> bool {
    forall|l: Tup, r: Tup|
        #![trigger left.contains(l), right.contains(r)]
        left.contains(l) && right.contains(r) ==> joinable_safe(ls, rs, l, r) && (joinable_val(ls, rs, l, r)
            ==> join_tuple_safe(ls, rs, r))
}

/// The text of one tuple: `column=value` for each column, joined by `, `.
pub open spec fn tuple_text(scheme: Seq<Seq<char>>, t: Tup) -> Seq<char> {
    let n = if scheme.len() < t.len() {
        scheme.len()
    } else {
        t.len()
    };
    join(Seq::new(n, |i: int| scheme[i] + "="@ + t[i]), ", "@)
}

/// The answer line of a query: `name(params)? No`, or `name(params)? Yes(count)`.
pub open spec fn answer_text(name: Seq<char>, params: Seq<Seq<char>>, count: nat) -> Seq<char> {
    if count == 0 {
        name + "("@ + join(params, ","@) + ")? No"@
    } else {
        name + "("@ + join(params, ","@) + ")? Yes("@ + decimal(count) + ")"@
    }
}

fn same_row(a: &Vec<String>, b: &Vec<String>) -> (r: bool)
    ensures
        r == (a.deep_view() == b.deep_view()),
{
    if a.len() != b.len() {
        assert(a.deep_view().len() != b.deep_view().len());
        return false;
    }
    let mut i: usize = 0;
    while i < a.len()
        invariant
            a.len() == b.len(),
            i <= a.len(),
            forall|k: int| 0 <= k < i ==> a.deep_view()[k] == b.deep_view()[k],
        decreases a.len() - i,
    {
        if a[i] != b[i] {
            assert(a.deep_view()[i as int] != b.deep_view()[i as int]);
            return false;
        }
        i = i + 1;
    }
    assert(a.deep_view() =~= b.deep_view());
    true
}

fn contains_row(rows: &Vec<Vec<String>>, t: &Vec<String>) -> (r: bool)
    ensures
        r == rows.deep_view().contains(t.deep_view()),
{
    let mut i: usize = 0;
    while i < rows.len()
        invariant
            i <= rows.len(),
            forall|k: int| 0 <= k < i ==> rows.deep_view()[k] != t.deep_view(),
        decreases rows.len() - i,
    {
        if same_row(&rows[i], t) {
            assert(rows.deep_view()[i as int] == t.deep_view());
            return true;
        }
        i = i + 1;
    }
    false
}

/// A copy of the rows.
fn clone_rows(rows: &Vec<Vec<String>>) -> (r: Vec<Vec<String>>)
    ensures
        r.deep_view() == rows.deep_view(),
{
    let mut r: Vec<Vec<String>> = Vec::new();
    let mut i: usize = 0;
    while i < rows.len()
        invariant
            i <= rows.len(),
            r.deep_view() =~= rows.deep_view().take(i as int),
        decreases rows.len() - i,
    {
        let t = clone_row(&rows[i]);
        let ghost before = r.deep_view();
        r.push(t);
        assert(r.deep_view() =~= before.push(rows.deep_view()[i as int]));
        assert(rows.deep_view().take(i + 1) =~= rows.deep_view().take(i as int).push(rows.deep_view()[i as int]));
        i = i + 1;
    }
    assert(rows.deep_view().take(rows.len() as int) =~= rows.deep_view());
    r
}

pub(crate) proof fn lemma_push_to_set<A>(s: Seq<A>, x: A)
    ensures
        s.push(x).to_set() == s.to_set().insert(x),
{
    assert forall|y: A| s.push(x).to_set().contains(y) <==> s.to_set().insert(x).contains(y) by {
        if s.push(x).contains(y) {
            let i = choose|i: int| 0 <= i < s.push(x).len() && s.push(x)[i] == y;
            if i < s.len() {
                assert(s[i] == y);
            }
        }
        if s.contains(y) {
            let i = choose|i: int| 0 <= i < s.len() && s[i] == y;
            assert(s.push(x)[i] == y);
        }
        if y == x {
            assert(s.push(x)[s.len() as int] == x);
        }
    }
    assert(s.push(x).to_set() =~= s.to_set().insert(x));
}

pub(crate) proof fn lemma_take_to_set<A>(s: Seq<A>, k: int)
    requires
        0 <= k < s.len(),
    ensures
        s.take(k + 1).to_set() == s.take(k).to_set().insert(s[k]),
{
    assert(s.take(k + 1) =~= s.take(k).push(s[k]));
    lemma_push_to_set(s.take(k), s[k]);
}

pub(crate) proof fn lemma_take_none_to_set<A>(s: Seq<A>)
    ensures
        s.take(0).to_set() == Set::<A>::empty(),
{
    assert(s.take(0).to_set() =~= Set::<A>::empty());
}

/// The column names differ, and every tuple has an entry per column.
pub open spec fn arity_ok(r: RelView) -> bool {
    &&& r.scheme.no_duplicates()
    &&& forall|t: Tup| r.tuples.contains(t) ==> t.len() == r.scheme.len()
}

/// The joined scheme holds the names of both schemes.
pub proof fn lemma_join_scheme_contains(ls: Seq<Seq<char>>, rs: Seq<Seq<char>>, x: Seq<char>)
    ensures
        join_scheme(ls, rs).contains(x) == (ls.contains(x) || rs.contains(x)),
    decreases rs.len(),
{
    if rs.len() > 0 {
        let d = rs.drop_last();
        lemma_join_scheme_contains(ls, d, x);
        let s = join_scheme(ls, d);
        if rs.contains(x) && !d.contains(x) {
            let i = choose|i: int| 0 <= i < rs.len() && rs[i] == x;
            if i < rs.len() - 1 {
                assert(d[i] == x);
            }
            assert(rs.last() == x);
            if !s.contains(x) {
                assert(s.push(x)[s.len() as int] == x);
            }
        }
        if d.contains(x) {
            let i = choose|i: int| 0 <= i < d.len() && d[i] == x;
            assert(rs[i] == x);
        }
        if !s.contains(rs.last()) {
            assert forall|y: Seq<char>| s.push(rs.last()).contains(y) <==> s.contains(y) || y == rs.last() by {
                if s.push(rs.last()).contains(y) {
                    let i = choose|i: int| 0 <= i < s.push(rs.last()).len() && s.push(rs.last())[i] == y;
                    if i < s.len() {
                        assert(s[i] == y);
                    }
                }
                if s.contains(y) {
                    let i = choose|i: int| 0 <= i < s.len() && s[i] == y;
                    assert(s.push(rs.last())[i] == y);
                }
                if y == rs.last() {
                    assert(s.push(rs.last())[s.len() as int] == y);
                }
            }
        }
    }
}

proof fn lemma_join_lengths(ls: Seq<Seq<char>>, rs: Seq<Seq<char>>, rt: Tup)
    requires
        ls.no_duplicates(),
        rs.no_duplicates(),
    ensures
        join_scheme(ls, rs).no_duplicates(),
        join_scheme(ls, rs).len() == ls.len() + extra_entries(ls, rs, rt).len(),
        extra_entries(ls, rs, rt).len() <= rs.len(),
    decreases rs.len(),
{
    if rs.len() > 0 {
        let d = rs.drop_last();
        assert(d.no_duplicates()) by {
            assert forall|i: int, j: int| 0 <= i < d.len() && 0 <= j < d.len() && i != j implies d[i] != d[j] by {
                assert(rs[i] == d[i] && rs[j] == d[j]);
            }
        }
        lemma_join_lengths(ls, d, rt);
        lemma_join_scheme_contains(ls, d, rs.last());
        if d.contains(rs.last()) {
            let i = choose|i: int| 0 <= i < d.len() && d[i] == rs.last();
            assert(rs[i] == rs[rs.len() - 1]);
        }
        let s = join_scheme(ls, d);
        if !s.contains(rs.last()) {
            assert forall|i: int, j: int|
                0 <= i < s.push(rs.last()).len() && 0 <= j < s.push(rs.last()).len() && i != j implies s.push(
                rs.last(),
            )[i] != s.push(rs.last())[j] by {
                if i < s.len() && j == s.len() {
                    assert(s.contains(s[i]));
                }
                if j < s.len() && i == s.len() {
                    assert(s.contains(s[j]));
                }
            }
        }
    }
}

/// Joining two relations whose tuples each have an entry per column reads only entries that
/// exist, and gives such a relation again.
pub proof fn lemma_join_arity(l: RelView, r: RelView)
    requires
        arity_ok(l),
        arity_ok(r),
    ensures
        join_safe(l.scheme, r.scheme, l.tuples, r.tuples),
        arity_ok(
            RelView {
                name: l.name + " and "@ + r.name,
                scheme: join_scheme(l.scheme, r.scheme),
                tuples: join_set(l.scheme, r.scheme, l.tuples, r.tuples),
            },
        ),
        join_scheme(l.scheme, r.scheme).len() <= l.scheme.len() + r.scheme.len(),
{
    let ls = l.scheme;
    let rs = r.scheme;
    lemma_join_lengths(ls, rs, Seq::empty());
    assert forall|lt: Tup, rt: Tup| #![trigger l.tuples.contains(lt), r.tuples.contains(rt)]
        l.tuples.contains(lt) && r.tuples.contains(rt) implies joinable_safe(ls, rs, lt, rt) && (joinable_val(
        ls,
        rs,
        lt,
        rt,
    ) ==> join_tuple_safe(ls, rs, rt)) by {
        assert(lt.len() == ls.len() && rt.len() == rs.len());
    }
    let js = join_set(ls, rs, l.tuples, r.tuples);
    assert forall|t: Tup| js.contains(t) implies t.len() == join_scheme(ls, rs).len() by {
        let (lt, rt) = choose|lt: Tup, rt: Tup|
            #![trigger l.tuples.contains(lt), r.tuples.contains(rt)]
            l.tuples.contains(lt) && r.tuples.contains(rt) && joinable_val(ls, rs, lt, rt) && t == join_tuple_val(
                ls,
                rs,
                lt,
                rt,
            );
        lemma_join_lengths(ls, rs, rt);
    }
}

/// The join of two finite sets of tuples is finite.
pub proof fn lemma_join_finite(ls: Seq<Seq<char>>, rs: Seq<Seq<char>>, left: Set<Tup>, right: Set<Tup>)
    requires
        left.finite(),
        right.finite(),
    ensures
        join_set(ls, rs, left, right).finite(),
{
    let fwd = |l: Tup| right.map(|r: Tup| join_tuple_val(ls, rs, l, r));
    let fam = left.map(fwd);
    left.lemma_map_finite(fwd);
    assert forall|s: Set<Tup>| fam.contains(s) implies #[trigger] s.finite() by {
        let l = choose|l: Tup| left.contains(l) && fwd(l) == s;
        right.lemma_map_finite(|r: Tup| join_tuple_val(ls, rs, l, r));
    }
    fam.lemma_flatten_finite();
    let js = join_set(ls, rs, left, right);
    assert forall|t: Tup| js.contains(t) implies fam.flatten().contains(t) by {
        let (l, r) = choose|l: Tup, r: Tup|
            #![trigger left.contains(l), right.contains(r)]
            left.contains(l) && right.contains(r) && joinable_val(ls, rs, l, r) && t == join_tuple_val(ls, rs, l, r);
        assert(fwd(l).contains(t));
        assert(fam.contains(fwd(l)));
    }
    assert(js.subset_of(fam.flatten()));
    vstd::set_lib::lemma_set_subset_finite(fam.flatten(), js);
}

/// Law: joining with a relation that has no tuple gives no tuple.
pub proof fn law_join_empty(ls: Seq<Seq<char>>, rs: Seq<Seq<char>>, left: Set<Tup>, right: Set<Tup>)
    requires
        left.is_empty() || right.is_empty(),
    ensures
        join_set(ls, rs, left, right) == Set::<Tup>::empty(),
{
    assert(join_set(ls, rs, left, right) =~= Set::<Tup>::empty());
}

proof fn lemma_disjoint_scheme(ls: Seq<Seq<char>>, rs: Seq<Seq<char>>, rt: Tup)
    requires
        rs.no_duplicates(),
        forall|i: int| 0 <= i < rs.len() ==> !ls.contains(#[trigger] rs[i]),
        rt.len() >= rs.len(),
    ensures
        join_scheme(ls, rs) == ls + rs,
        extra_entries(ls, rs, rt) == rt.take(rs.len() as int),
    decreases rs.len(),
{
    if rs.len() == 0 {
        assert(ls + rs =~= ls);
        assert(rt.take(0) =~= Seq::<Seq<char>>::empty());
    } else {
        let d = rs.drop_last();
        assert(d.no_duplicates()) by {
            assert forall|i: int, j: int| 0 <= i < d.len() && 0 <= j < d.len() && i != j implies d[i] != d[j] by {
                assert(rs[i] == d[i] && rs[j] == d[j]);
            }
        }
        assert forall|i: int| 0 <= i < d.len() implies !ls.contains(#[trigger] d[i]) by {
            assert(rs[i] == d[i]);
        }
        lemma_disjoint_scheme(ls, d, rt);
        assert(!ls.contains(rs[rs.len() - 1]));
        assert(!(ls + d).contains(rs.last())) by {
            if (ls + d).contains(rs.last()) {
                let i = choose|i: int| 0 <= i < (ls + d).len() && (ls + d)[i] == rs.last();
                if i < ls.len() {
                    assert(ls.contains(rs.last()));
                } else {
                    assert(d[i - ls.len()] == rs[rs.len() - 1]);
                    assert(rs[i - ls.len()] == rs[rs.len() - 1]);
                }
            }
        }
        assert((ls + d).push(rs.last()) =~= ls + rs);
        assert(rt.take(d.len() as int).push(rt[rs.len() - 1]) =~= rt.take(rs.len() as int));
    }
}

/// Law: relations with no column name in common join into their product: the columns of the
/// left followed by those of the right, and every left tuple followed by every right tuple.
pub proof fn law_join_product(l: RelView, r: RelView)
    requires
        arity_ok(l),
        arity_ok(r),
        forall|i: int| 0 <= i < r.scheme.len() ==> !l.scheme.contains(#[trigger] r.scheme[i]),
    ensures
        join_scheme(l.scheme, r.scheme) == l.scheme + r.scheme,
        join_set(l.scheme, r.scheme, l.tuples, r.tuples) == Set::new(
            |t: Tup| exists|a: Tup, b: Tup| #![trigger l.tuples.contains(a), r.tuples.contains(b)] l.tuples.contains(a) && r.tuples.contains(b) && t == a + b,
        ),
{
    let ls = l.scheme;
    let rs = r.scheme;
    lemma_disjoint_scheme(ls, rs, rs);
    let js = join_set(ls, rs, l.tuples, r.tuples);
    let prod = Set::new(
        |t: Tup| exists|a: Tup, b: Tup| #![trigger l.tuples.contains(a), r.tuples.contains(b)] l.tuples.contains(a) && r.tuples.contains(b) && t == a + b,
    );
    assert forall|a: Tup, b: Tup| l.tuples.contains(a) && r.tuples.contains(b) implies joinable_val(ls, rs, a, b)
        && join_tuple_val(ls, rs, a, b) == a + b by {
        assert forall|i: int, j: int| #![trigger ls[i], rs[j]] same_column(ls, rs, i, j) implies i < a.len() && j < b.len() && a[i] == b[j] by {
            assert(ls.contains(ls[i]));
        }
        lemma_disjoint_scheme(ls, rs, b);
        assert(b.take(rs.len() as int) =~= b);
    }
    assert forall|t: Tup| js.contains(t) <==> prod.contains(t) by {
        if js.contains(t) {
            let (a, b) = choose|a: Tup, b: Tup|
                #![trigger l.tuples.contains(a), r.tuples.contains(b)]
                l.tuples.contains(a) && r.tuples.contains(b) && joinable_val(ls, rs, a, b) && t == join_tuple_val(ls, rs, a, b);
        }
        if prod.contains(t) {
            let (a, b) = choose|a: Tup, b: Tup|
                #![trigger l.tuples.contains(a), r.tuples.contains(b)]
                l.tuples.contains(a) && r.tuples.contains(b) && t == a + b;
        }
    }
    assert(js =~= prod);
}

proof fn lemma_self_scheme(ls: Seq<Seq<char>>, rs: Seq<Seq<char>>, rt: Tup)
    requires
        forall|i: int| 0 <= i < rs.len() ==> ls.contains(#[trigger] rs[i]),
    ensures
        join_scheme(ls, rs) == ls,
        extra_entries(ls, rs, rt) == Seq::<Seq<char>>::empty(),
    decreases rs.len(),
{
    if rs.len() > 0 {
        let d = rs.drop_last();
        assert forall|i: int| 0 <= i < d.len() implies ls.contains(#[trigger] d[i]) by {
            assert(rs[i] == d[i]);
        }
        lemma_self_scheme(ls, d, rt);
        assert(ls.contains(rs[rs.len() - 1]));
    }
}

/// Law: a relation joined with itself is itself.
pub proof fn law_join_self(r: RelView)
    requires
        arity_ok(r),
    ensures
        join_scheme(r.scheme, r.scheme) == r.scheme,
        join_set(r.scheme, r.scheme, r.tuples, r.tuples) == r.tuples,
{
    let s = r.scheme;
    assert forall|i: int| 0 <= i < s.len() implies s.contains(#[trigger] s[i]) by {}
    lemma_self_scheme(s, s, Seq::empty());
    let js = join_set(s, s, r.tuples, r.tuples);
    assert forall|t: Tup| js.contains(t) <==> r.tuples.contains(t) by {
        if js.contains(t) {
            let (a, b) = choose|a: Tup, b: Tup|
                #![trigger r.tuples.contains(a), r.tuples.contains(b)]
                r.tuples.contains(a) && r.tuples.contains(b) && joinable_val(s, s, a, b) && t == join_tuple_val(s, s, a, b);
            lemma_self_scheme(s, s, b);
            assert(t =~= a);
        }
        if r.tuples.contains(t) {
            assert forall|i: int, j: int| #![trigger s[i], s[j]] same_column(s, s, i, j) implies i < t.len() && j < t.len() && t[i] == t[j] by {
                assert(i == j);
            }
            lemma_self_scheme(s, s, t);
            assert(join_tuple_val(s, s, t, t) =~= t);
            assert(r.tuples.contains(t) && r.tuples.contains(t) && joinable_val(s, s, t, t) && t == join_tuple_val(s, s, t, t));
        }
    }
    assert(js =~= r.tuples);
}

/// Law: two relations over the same columns join into their intersection: the same columns,
/// and the tuples that both hold.
pub proof fn law_join_same_scheme(l: RelView, r: RelView)
    requires
        arity_ok(l),
        arity_ok(r),
        l.scheme == r.scheme,
    ensures
        join_scheme(l.scheme, r.scheme) == l.scheme,
        join_set(l.scheme, r.scheme, l.tuples, r.tuples) == l.tuples.intersect(r.tuples),
{
    let s = l.scheme;
    assert forall|i: int| 0 <= i < s.len() implies s.contains(#[trigger] s[i]) by {}
    lemma_self_scheme(s, s, Seq::empty());
    let js = join_set(s, s, l.tuples, r.tuples);
    assert forall|t: Tup| js.contains(t) <==> l.tuples.intersect(r.tuples).contains(t) by {
        if js.contains(t) {
            let (a, b) = choose|a: Tup, b: Tup|
                #![trigger l.tuples.contains(a), r.tuples.contains(b)]
                l.tuples.contains(a) && r.tuples.contains(b) && joinable_val(s, s, a, b) && t == join_tuple_val(s, s, a, b);
            lemma_self_scheme(s, s, b);
            assert(t =~= a);
            assert forall|i: int| 0 <= i < a.len() implies a[i] == b[i] by {
                assert(same_column(s, s, i, i));
                assert(s[i] == s[i]);
            }
            assert(a =~= b);
        }
        if l.tuples.intersect(r.tuples).contains(t) {
            assert forall|i: int, j: int| #![trigger s[i], s[j]] same_column(s, s, i, j) implies i < t.len() && j < t.len() && t[i] == t[j] by {
                assert(i == j);
            }
            lemma_self_scheme(s, s, t);
            assert(join_tuple_val(s, s, t, t) =~= t);
            assert(l.tuples.contains(t) && r.tuples.contains(t) && joinable_val(s, s, t, t) && t == join_tuple_val(s, s, t, t));
        }
    }
    assert(js =~= l.tuples.intersect(r.tuples));
}

/// The entry `w` holds under the column named `x` of `scheme` (its first column of that name).
pub open spec fn entry_named(scheme: Seq<Seq<char>>, w: Tup, x: Seq<char>) -> Seq<char> {
    w[first_from(scheme, x, 0)]
}

/// The entries `w` holds under the columns `names` of `scheme`, in the order of `names`.
pub open spec fn entries_named(scheme: Seq<Seq<char>>, w: Tup, names: Seq<Seq<char>>) -> Tup {
    names.map_values(|x: Seq<char>| entry_named(scheme, w, x))
}

/// The positions of the right columns whose names the left scheme lacks, in order.
pub open spec fn extra_positions(ls: Seq<Seq<char>>, rs: Seq<Seq<char>>) -> Seq<int>
    decreases rs.len(),
{
    if rs.len() == 0 {
        Seq::empty()
    } else {
        let e = extra_positions(ls, rs.drop_last());
        if ls.contains(rs.last()) {
            e
        } else {
            e.push(rs.len() - 1)
        }
    }
}

proof fn lemma_extra_positions(ls: Seq<Seq<char>>, rs: Seq<Seq<char>>, rt: Tup)
    ensures
        forall|t: int| 0 <= t < extra_positions(ls, rs).len() ==> 0 <= #[trigger] extra_positions(ls, rs)[t] < rs.len()
            && !ls.contains(rs[extra_positions(ls, rs)[t]]),
        forall|t1: int, t2: int| 0 <= t1 < t2 < extra_positions(ls, rs).len() ==> #[trigger] extra_positions(ls, rs)[t1]
            < #[trigger] extra_positions(ls, rs)[t2],
        forall|j: int| 0 <= j < rs.len() && !ls.contains(#[trigger] rs[j]) ==> exists|t: int|
            0 <= t < extra_positions(ls, rs).len() && #[trigger] extra_positions(ls, rs)[t] == j,
        extra_entries(ls, rs, rt) == Seq::new(extra_positions(ls, rs).len(), |t: int| rt[extra_positions(ls, rs)[t]]),
        rs.no_duplicates() ==> join_scheme(ls, rs) == ls + Seq::new(
            extra_positions(ls, rs).len(),
            |t: int| rs[extra_positions(ls, rs)[t]],
        ),
    decreases rs.len(),
{
    let m = extra_positions(ls, rs);
    if rs.len() == 0 {
        assert(extra_entries(ls, rs, rt) =~= Seq::new(m.len(), |t: int| rt[m[t]]));
        assert(ls + Seq::new(m.len(), |t: int| rs[m[t]]) =~= ls);
    } else {
        let d = rs.drop_last();
        lemma_extra_positions(ls, d, rt);
        let e = extra_positions(ls, d);
        assert forall|j: int| 0 <= j < rs.len() && !ls.contains(#[trigger] rs[j]) implies exists|t: int|
            0 <= t < m.len() && #[trigger] m[t] == j by {
            if j < rs.len() - 1 {
                assert(d[j] == rs[j]);
                let t = choose|t: int| 0 <= t < e.len() && #[trigger] e[t] == j;
                assert(m[t] == j);
            } else {
                assert(m[e.len() as int] == j);
            }
        }
        assert(extra_entries(ls, rs, rt) =~= Seq::new(m.len(), |t: int| rt[m[t]]));
        if rs.no_duplicates() {
            assert(d.no_duplicates()) by {
                assert forall|i: int, j: int| 0 <= i < d.len() && 0 <= j < d.len() && i != j implies d[i] != d[j] by {
                    assert(rs[i] == d[i] && rs[j] == d[j]);
                }
            }
            lemma_join_scheme_contains(ls, d, rs.last());
            assert(!d.contains(rs.last())) by {
                if d.contains(rs.last()) {
                    let i = choose|i: int| 0 <= i < d.len() && d[i] == rs.last();
                    assert(rs[i] == rs[rs.len() - 1]);
                }
            }
            assert(Seq::new(e.len(), |t: int| d[e[t]]) =~= Seq::new(e.len(), |t: int| rs[e[t]]));
            assert(join_scheme(ls, rs) =~= ls + Seq::new(m.len(), |t: int| rs[m[t]]));
        }
    }
}

proof fn lemma_first_of_unique(s: Seq<Seq<char>>, p: int)
    requires
        s.no_duplicates(),
        0 <= p < s.len(),
    ensures
        first_from(s, s[p], 0) == p,
{
    lemma_first_from(s, s[p], 0, p);
}

/// Law: the natural join, by column names. Its columns are those of the left relation, then
/// the right relation's columns that the left lacks, each once. A tuple belongs to the join
/// exactly when it has an entry per column and its entries, read by name, give under the left
/// columns a tuple of the left relation and under the right columns a tuple of the right
/// relation. So two tuples combine only where they agree on every column name they share,
/// wherever those columns stand.
pub proof fn law_join_by_names(l: RelView, r: RelView)
    requires
        arity_ok(l),
        arity_ok(r),
    ensures
        join_scheme(l.scheme, r.scheme).no_duplicates(),
        join_scheme(l.scheme, r.scheme).take(l.scheme.len() as int) == l.scheme,
        forall|x: Seq<char>| #[trigger] join_scheme(l.scheme, r.scheme).contains(x) <==> l.scheme.contains(x) || r.scheme.contains(x),
        forall|w: Tup|
            #[trigger] join_set(l.scheme, r.scheme, l.tuples, r.tuples).contains(w) <==> {
                &&& w.len() == join_scheme(l.scheme, r.scheme).len()
                &&& l.tuples.contains(entries_named(join_scheme(l.scheme, r.scheme), w, l.scheme))
                &&& r.tuples.contains(entries_named(join_scheme(l.scheme, r.scheme), w, r.scheme))
            },
{
    let ls = l.scheme;
    let rs = r.scheme;
    let js = join_scheme(ls, rs);
    lemma_join_lengths(ls, rs, Seq::empty());
    lemma_extra_positions(ls, rs, Seq::empty());
    let m = extra_positions(ls, rs);
    assert(js == ls + Seq::new(m.len(), |t: int| rs[m[t]]));
    assert(js.take(ls.len() as int) =~= ls);
    assert forall|x: Seq<char>| #[trigger] js.contains(x) <==> ls.contains(x) || rs.contains(x) by {
        lemma_join_scheme_contains(ls, rs, x);
    }
    assert forall|i: int| 0 <= i < ls.len() implies first_from(js, #[trigger] ls[i], 0) == i by {
        assert(js[i] == ls[i]);
        lemma_first_of_unique(js, i);
    }
    assert forall|t: int| 0 <= t < m.len() implies first_from(js, #[trigger] rs[m[t]], 0) == ls.len() + t by {
        assert(js[ls.len() + t] == rs[m[t]]);
        lemma_first_of_unique(js, ls.len() + t);
    }
    let js_set = join_set(ls, rs, l.tuples, r.tuples);
    assert forall|w: Tup| #[trigger] js_set.contains(w) <==> {
        &&& w.len() == js.len()
        &&& l.tuples.contains(entries_named(js, w, ls))
        &&& r.tuples.contains(entries_named(js, w, rs))
    } by {
        if js_set.contains(w) {
            let (a, b) = choose|a: Tup, b: Tup|
                #![trigger l.tuples.contains(a), r.tuples.contains(b)]
                l.tuples.contains(a) && r.tuples.contains(b) && joinable_val(ls, rs, a, b) && w == join_tuple_val(ls, rs, a, b);
            lemma_extra_positions(ls, rs, b);
            assert(w == a + Seq::new(m.len(), |t: int| b[m[t]]));
            assert(w.len() == js.len());
            assert(entries_named(js, w, ls) =~= a);
            assert forall|j: int| 0 <= j < rs.len() implies #[trigger] entries_named(js, w, rs)[j] == b[j] by {
                if ls.contains(rs[j]) {
                    let i = choose|i: int| 0 <= i < ls.len() && ls[i] == rs[j];
                    assert(same_column(ls, rs, i, j));
                    assert(ls[i] == rs[j]);
                } else {
                    let t = choose|t: int| 0 <= t < m.len() && #[trigger] m[t] == j;
                }
            }
            assert(entries_named(js, w, rs) =~= b);
        }
        if w.len() == js.len() && l.tuples.contains(entries_named(js, w, ls)) && r.tuples.contains(entries_named(js, w, rs)) {
            let a = entries_named(js, w, ls);
            let b = entries_named(js, w, rs);
            lemma_extra_positions(ls, rs, b);
            assert forall|i: int, j: int| #![trigger ls[i], rs[j]] same_column(ls, rs, i, j) implies i < a.len() && j < b.len()
                && a[i] == b[j] by {
                assert(ls[i] == rs[j]);
            }
            assert forall|p: int| 0 <= p < w.len() implies w[p] == join_tuple_val(ls, rs, a, b)[p] by {
                if p < ls.len() {
                    assert(a[p] == entry_named(js, w, ls[p]));
                } else {
                    let t = p - ls.len();
                    assert(b[m[t]] == entry_named(js, w, rs[m[t]]));
                }
            }
            assert(w =~= join_tuple_val(ls, rs, a, b));
            assert(l.tuples.contains(a) && r.tuples.contains(b) && joinable_val(ls, rs, a, b) && w == join_tuple_val(ls, rs, a, b));
        }
    }
}

pub(crate) proof fn lemma_take_all<A>(s: Seq<A>)
    ensures
        s.take(s.len() as int) == s,
{
    assert(s.take(s.len() as int) =~= s);
}

impl Relation {
    /// The relation holds each tuple once.
    pub open spec fn wf(&self) -> bool {
        self.tuples.deep_view().no_duplicates()
    }

    /// A copy of the relation.
    pub fn copy(&self) -> (r: Relation)
        ensures
            r.name@ == self.name@,
            r.scheme.deep_view() == self.scheme.deep_view(),
            r.tuples.deep_view() == self.tuples.deep_view(),
            r@ == self@,
    {
        Relation { name: self.name.clone(), scheme: clone_row(&self.scheme), tuples: clone_rows(&self.tuples) }
    }

    /// An empty relation with the given name and columns.
    pub fn new(new_name: String, schema: Vec<String>) -> (r: Relation)
        ensures
            r.wf(),
            r@ == (RelView { name: new_name@, scheme: schema.deep_view(), tuples: Set::empty() }),
            r.tuples.deep_view() == Seq::<Tup>::empty(),
    {
        let r = Relation { name: new_name, scheme: schema, tuples: Vec::new() };
        assert(r.tuples.deep_view() =~= Seq::<Tup>::empty());
        assert(r@.tuples =~= Set::<Tup>::empty());
        r
    }

    /// Adds a tuple; true when it was not there yet.
    pub fn add_tuple(&mut self, tuple: Vec<String>) -> (added: bool)
        requires
            old(self).wf(),
        ensures
            final(self).wf(),
            added == !old(self)@.tuples.contains(tuple.deep_view()),
            final(self)@ == (RelView { tuples: old(self)@.tuples.insert(tuple.deep_view()), ..old(self)@ }),
            final(self).tuples.deep_view() == if added {
                old(self).tuples.deep_view().push(tuple.deep_view())
            } else {
                old(self).tuples.deep_view()
            },
    {
        let ghost t = tuple.deep_view();
        if contains_row(&self.tuples, &tuple) {
            assert(self@.tuples.insert(t) =~= self@.tuples);
            false
        } else {
            let ghost before = self.tuples.deep_view();
            self.tuples.push(tuple);
            assert(self.tuples.deep_view() =~= before.push(t));
            proof {
                lemma_push_to_set(before, t);
            }
            true
        }
    }

    /// A copy with column `index` renamed to `value`.
    pub fn rename(&mut self, index: u32, value: String) -> (r: Relation)
        requires
            old(self).wf(),
            index < old(self).scheme.len(),
        ensures
            *final(self) == *old(self),
            r.wf(),
            r@ == (RelView { scheme: old(self)@.scheme.update(index as int, value@), ..old(self)@ }),
    {
        let mut new_scheme = clone_row(&self.scheme);
        assert(new_scheme.deep_view().len() == self.scheme.deep_view().len());
        new_scheme.set(index as usize, value);
        let r = Relation { name: self.name.clone(), scheme: new_scheme, tuples: clone_rows(&self.tuples) };
        assert(r.scheme.deep_view() =~= self.scheme.deep_view().update(index as int, value@));
        r
    }

    /// The tuples whose entry in column `index` is `value`.
    pub fn select_by_value(&self, index: usize, value: &str) -> (r: Relation)
        requires
            self.wf(),
            forall|t: Tup| self@.tuples.contains(t) ==> index < t.len(),
        ensures
            r.wf(),
            r@ == (RelView { tuples: self@.tuples.filter(|t: Tup| t[index as int] == value@), ..self@ }),
    {
        let v = String::from_str(value);
        let mut result = Relation::new(self.name.clone(), clone_row(&self.scheme));
        let ghost rows = self.tuples.deep_view();
        let ghost pred = |t: Tup| t[index as int] == value@;
        let mut k: usize = 0;
        proof {
            lemma_take_none_to_set(rows);
            assert(Set::<Tup>::empty().filter(pred) =~= Set::<Tup>::empty());
        }
        while k < self.tuples.len()
            invariant
                k <= self.tuples.len(),
                rows == self.tuples.deep_view(),
                v@ == value@,
                pred == (|t: Tup| t[index as int] == value@),
                forall|t: Tup| self@.tuples.contains(t) ==> index < t.len(),
                result.wf(),
                result@ == (RelView { tuples: rows.take(k as int).to_set().filter(pred), ..self@ }),
            decreases self.tuples.len() - k,
        {
            proof {
                lemma_take_to_set(rows, k as int);
                assert(self@.tuples.contains(rows[k as int]));
            }
            let keep = self.tuples[k][index] == v;
            assert(keep == (self.tuples[k as int][index as int]@ == v@));
            assert(rows[k as int][index as int] == self.tuples[k as int][index as int]@);
            assert(keep == pred(rows[k as int]));
            if keep {
                result.add_tuple(clone_row(&self.tuples[k]));
            }
            assert(rows.take(k + 1).to_set().filter(pred) =~= if pred(rows[k as int]) {
                rows.take(k as int).to_set().filter(pred).insert(rows[k as int])
            } else {
                rows.take(k as int).to_set().filter(pred)
            });
            k = k + 1;
        }
        proof {
            lemma_take_all(rows);
        }
        result
    }

    /// The tuples whose entries in columns `index1` and `index2` are equal.
    pub fn select_by_matching_indices(&self, index1: usize, index2: usize) -> (r: Relation)
        requires
            self.wf(),
            forall|t: Tup| self@.tuples.contains(t) ==> index1 < t.len() && index2 < t.len(),
        ensures
            r.wf(),
            r@ == (RelView { tuples: self@.tuples.filter(|t: Tup| t[index1 as int] == t[index2 as int]), ..self@ }),
    {
        let mut result = Relation::new(self.name.clone(), clone_row(&self.scheme));
        let ghost rows = self.tuples.deep_view();
        let ghost pred = |t: Tup| t[index1 as int] == t[index2 as int];
        let mut k: usize = 0;
        proof {
            lemma_take_none_to_set(rows);
            assert(Set::<Tup>::empty().filter(pred) =~= Set::<Tup>::empty());
        }
        while k < self.tuples.len()
            invariant
                k <= self.tuples.len(),
                rows == self.tuples.deep_view(),
                pred == (|t: Tup| t[index1 as int] == t[index2 as int]),
                forall|t: Tup| self@.tuples.contains(t) ==> index1 < t.len() && index2 < t.len(),
                result.wf(),
                result@ == (RelView { tuples: rows.take(k as int).to_set().filter(pred), ..self@ }),
            decreases self.tuples.len() - k,
        {
            proof {
                lemma_take_to_set(rows, k as int);
                assert(self@.tuples.contains(rows[k as int]));
            }
            let keep = self.tuples[k][index1] == self.tuples[k][index2];
            assert(rows[k as int][index1 as int] == self.tuples[k as int][index1 as int]@);
            assert(rows[k as int][index2 as int] == self.tuples[k as int][index2 as int]@);
            assert(keep == pred(rows[k as int]));
            if keep {
                result.add_tuple(clone_row(&self.tuples[k]));
            }
            assert(rows.take(k + 1).to_set().filter(pred) =~= if pred(rows[k as int]) {
                rows.take(k as int).to_set().filter(pred).insert(rows[k as int])
            } else {
                rows.take(k as int).to_set().filter(pred)
            });
            k = k + 1;
        }
        proof {
            lemma_take_all(rows);
        }
        result
    }

    /// The columns `indices` of the relation, in that order.
    pub fn project(&self, indices: &Vec<u32>) -> (r: Relation)
        requires
            self.wf(),
            forall|k: int| 0 <= k < indices.len() ==> indices[k] < self.scheme.len(),
            forall|t: Tup, k: int| self@.tuples.contains(t) && 0 <= k < indices.len() ==> indices[k] < t.len(),
        ensures
            r.wf(),
            r@ == (RelView {
                name: self@.name,
                scheme: pick(self@.scheme, indices@),
                tuples: self@.tuples.map(|t: Tup| pick(t, indices@)),
            }),
    {
        let new_scheme = pick_row(&self.scheme, indices);
        let mut result = Relation::new(self.name.clone(), new_scheme);
        let ghost rows = self.tuples.deep_view();
        let ghost f = |t: Tup| pick(t, indices@);
        let mut k: usize = 0;
        proof {
            lemma_take_none_to_set(rows);
            assert(Set::<Tup>::empty().map(f) =~= Set::<Tup>::empty());
        }
        while k < self.tuples.len()
            invariant
                k <= self.tuples.len(),
                rows == self.tuples.deep_view(),
                f == (|t: Tup| pick(t, indices@)),
                forall|t: Tup, j: int| self@.tuples.contains(t) && 0 <= j < indices.len() ==> indices[j] < t.len(),
                result.wf(),
                result@ == (RelView {
                    name: self@.name,
                    scheme: pick(self@.scheme, indices@),
                    tuples: rows.take(k as int).to_set().map(f),
                }),
            decreases self.tuples.len() - k,
        {
            proof {
                lemma_take_to_set(rows, k as int);
                assert(self@.tuples.contains(rows[k as int]));
                rows.take(k as int).to_set().lemma_set_map_insert_commute(rows[k as int], f);
            }
            let t = pick_row(&self.tuples[k], indices);
            result.add_tuple(t);
            k = k + 1;
        }
        proof {
            lemma_take_all(rows);
        }
        result
    }

    /// Whether two tuples agree on every pair of columns with the same name.
    pub fn joinable(
        &self,
        left_scheme: &[String],
        right_scheme: &[String],
        left_tuple: &Vec<String>,
        right_tuple: &Vec<String>,
    ) -> (r: bool)
        requires
            joinable_safe(
                left_scheme.deep_view(),
                right_scheme.deep_view(),
                left_tuple.deep_view(),
                right_tuple.deep_view(),
            ),
        ensures
            r == joinable_val(
                left_scheme.deep_view(),
                right_scheme.deep_view(),
                left_tuple.deep_view(),
                right_tuple.deep_view(),
            ),
    {
        let ghost ls = left_scheme.deep_view();
        let ghost rs = right_scheme.deep_view();
        let ghost lt = left_tuple.deep_view();
        let ghost rt = right_tuple.deep_view();
        let mut i: usize = 0;
        while i < left_scheme.len()
            invariant
                i <= left_scheme.len(),
                ls == left_scheme.deep_view(),
                rs == right_scheme.deep_view(),
                lt == left_tuple.deep_view(),
                rt == right_tuple.deep_view(),
                joinable_safe(ls, rs, lt, rt),
                agree_before(ls, rs, lt, rt, i as int, 0),
            decreases left_scheme.len() - i,
        {
            let mut j: usize = 0;
            while j < right_scheme.len()
                invariant
                    i < left_scheme.len(),
                    j <= right_scheme.len(),
                    ls == left_scheme.deep_view(),
                    rs == right_scheme.deep_view(),
                    lt == left_tuple.deep_view(),
                    rt == right_tuple.deep_view(),
                    joinable_safe(ls, rs, lt, rt),
                    agree_before(ls, rs, lt, rt, i as int, j as int),
                decreases right_scheme.len() - j,
            {
                if left_scheme[i] == right_scheme[j] {
                    assert(same_column(ls, rs, i as int, j as int));
                    assert(i < lt.len() && j < rt.len());
                    if left_tuple[i] != right_tuple[j] {
                        assert(lt[i as int] != rt[j as int]);
                        return false;
                    }
                }
                assert(agree_before(ls, rs, lt, rt, i as int, j + 1)) by {
                    assert forall|a: int, b: int|
                        #![trigger ls[a], rs[b]]
                        same_column(ls, rs, a, b) && (a < i || (a == i && b < j + 1)) implies a < lt.len()
                            && b < rt.len() && lt[a] == rt[b] by {
                        if a == i && b == j {
                        }
                    }
                }
                j = j + 1;
            }
            assert(agree_before(ls, rs, lt, rt, i + 1, 0)) by {
                assert forall|a: int, b: int|
                    #![trigger ls[a], rs[b]]
                    same_column(ls, rs, a, b) && (a < i + 1 || (a == i + 1 && b < 0)) implies a < lt.len()
                        && b < rt.len() && lt[a] == rt[b] by {
                    assert(agree_before(ls, rs, lt, rt, i as int, j as int));
                }
            }
            i = i + 1;
        }
        assert(joinable_val(ls, rs, lt, rt)) by {
            assert forall|a: int, b: int|
                #![trigger ls[a], rs[b]]
                same_column(ls, rs, a, b) implies a < lt.len() && b < rt.len() && lt[a] == rt[b] by {
                assert(agree_before(ls, rs, lt, rt, i as int, 0));
            }
        }
        true
    }

    /// The natural join: tuples that agree on the shared columns, combined; the scheme is the
    /// left scheme followed by the new names of the right one.
    pub fn join(&self, right: &Relation) -> (r: Relation)
        requires
            self.wf(),
            right.wf(),
            join_safe(self@.scheme, right@.scheme, self@.tuples, right@.tuples),
        ensures
            r.wf(),
            r@ == (RelView {
                name: self@.name + " and "@ + right@.name,
                scheme: join_scheme(self@.scheme, right@.scheme),
                tuples: join_set(self@.scheme, right@.scheme, self@.tuples, right@.tuples),
            }),
    {
        let left = self;
        let ghost ls = left.scheme.deep_view();
        let ghost rs = right.scheme.deep_view();
        let mut new_scheme = clone_row(&left.scheme);
        let mut common_scheme = false;
        let mut k: usize = 0;
        assert(rs.take(0) =~= Seq::<Seq<char>>::empty());
        while k < right.scheme.len()
            invariant
                k <= right.scheme.len(),
                ls == left.scheme.deep_view(),
                rs == right.scheme.deep_view(),
                new_scheme.deep_view() == join_scheme(ls, rs.take(k as int)),
                forall|x: Seq<char>| ls.contains(x) ==> new_scheme.deep_view().contains(x),
                forall|j: int| 0 <= j < k && ls.contains(rs[j]) ==> common_scheme,
            decreases right.scheme.len() - k,
        {
            proof {
                lemma_join_scheme_step(ls, rs, k as int);
            }
            if crate::text::contains_string(&new_scheme, &right.scheme[k]) {
                common_scheme = true;
            } else {
                let ghost before = new_scheme.deep_view();
                new_scheme.push(right.scheme[k].clone());
                assert(new_scheme.deep_view() =~= before.push(rs[k as int]));
                assert forall|x: Seq<char>| ls.contains(x) implies new_scheme.deep_view().contains(x) by {
                    let i = choose|i: int| 0 <= i < before.len() && before[i] == x;
                    assert(new_scheme.deep_view()[i] == x);
                }
            }
            k = k + 1;
        }
        assert(rs.take(right.scheme.len() as int) =~= rs);
        let mut new_name = left.name.clone();
        new_name.append(" and ");
        new_name.append(right.name.as_str());
        let mut result = Relation::new(new_name, new_scheme);
        let ghost lrows = left.tuples.deep_view();
        let ghost rrows = right.tuples.deep_view();
        proof {
            lemma_join_start(ls, rs, lrows, rrows);
        }
        let left_scheme = left.scheme.as_slice();
        let right_scheme = right.scheme.as_slice();
        assert(left_scheme.deep_view() =~= ls);
        assert(right_scheme.deep_view() =~= rs);
        let mut i: usize = 0;
        while i < left.tuples.len()
            invariant
                i <= left.tuples.len(),
                ls == left.scheme.deep_view(),
                rs == right.scheme.deep_view(),
                left_scheme.deep_view() == ls,
                right_scheme.deep_view() == rs,
                lrows == left.tuples.deep_view(),
                rrows == right.tuples.deep_view(),
                join_safe(ls, rs, lrows.to_set(), rrows.to_set()),
                forall|j: int| 0 <= j < rs.len() && ls.contains(rs[j]) ==> common_scheme,
                result.wf(),
                result@ == (RelView {
                    name: left@.name + " and "@ + right@.name,
                    scheme: join_scheme(ls, rs),
                    tuples: join_so_far(ls, rs, lrows, rrows, i as int, 0),
                }),
            decreases left.tuples.len() - i,
        {
            let mut j: usize = 0;
            while j < right.tuples.len()
                invariant
                    i < left.tuples.len(),
                    j <= right.tuples.len(),
                    ls == left.scheme.deep_view(),
                    rs == right.scheme.deep_view(),
                    left_scheme.deep_view() == ls,
                    right_scheme.deep_view() == rs,
                    lrows == left.tuples.deep_view(),
                    rrows == right.tuples.deep_view(),
                    join_safe(ls, rs, lrows.to_set(), rrows.to_set()),
                    forall|j: int| 0 <= j < rs.len() && ls.contains(rs[j]) ==> common_scheme,
                    result.wf(),
                    result@ == (RelView {
                        name: left@.name + " and "@ + right@.name,
                        scheme: join_scheme(ls, rs),
                        tuples: join_so_far(ls, rs, lrows, rrows, i as int, j as int),
                    }),
                decreases right.tuples.len() - j,
            {
                let left_tuple = &left.tuples[i];
                let right_tuple = &right.tuples[j];
                proof {
                    lemma_join_step(ls, rs, lrows, rrows, i as int, j as int);
                    assert(lrows.to_set().contains(lrows[i as int]));
                    assert(rrows.to_set().contains(rrows[j as int]));
                }
                if self.joinable(left_scheme, right_scheme, left_tuple, right_tuple) {
                    let new_tuple = self.join_tuple(left_scheme, right_scheme, left_tuple, right_tuple);
                    result.add_tuple(new_tuple);
                } else if !common_scheme {
                    proof {
                        let (a, b) = choose|a: int, b: int|
                            #![trigger ls[a], rs[b]]
                            !(same_column(ls, rs, a, b) ==> a < lrows[i as int].len() && b < rrows[j as int].len()
                                && lrows[i as int][a] == rrows[j as int][b]);
                        assert(ls.contains(rs[b]));
                    }
                    let mut information = clone_row(left_tuple);
                    let mut m: usize = 0;
                    while m < right_tuple.len()
                        invariant
                            m <= right_tuple.len(),
                        decreases right_tuple.len() - m,
                    {
                        information.push(right_tuple[m].clone());
                        m = m + 1;
                    }
                    result.add_tuple(information);
                }
                j = j + 1;
            }
            proof {
                lemma_join_row(ls, rs, lrows, rrows, i as int);
            }
            i = i + 1;
        }
        proof {
            lemma_join_end(ls, rs, lrows, rrows);
        }
        result
    }

    /// The answer line of a query on this relation: `name(params)? No` when it is empty,
    /// else `name(params)? Yes(n)` with the number of tuples.
    pub fn query_verification(&self, name: String, parameters: Vec<String>) -> (r: String)
        requires
            self.wf(),
        ensures
            r@ == answer_text(name@, parameters.deep_view(), self@.tuples.len()),
    {
        proof {
            self.tuples.deep_view().unique_seq_to_set();
        }
        let param_string = join_strings(&parameters, ",");
        let mut line = name;
        line.append("(");
        line.append(param_string.as_str());
        if self.tuples.len() == 0 {
            line.append(")? No");
        } else {
            line.append(")? Yes(");
            push_decimal(&mut line, self.tuples.len() as u64);
            line.append(")");
        }
        line
    }

    /// The text of each tuple, in the order the relation holds them: `column=value` for each
    /// column, joined by `, `.
    pub fn to_string_list(&mut self) -> (r: Vec<String>)
        ensures
            *final(self) == *old(self),
            r.len() == old(self).tuples.len(),
            forall|k: int|
                0 <= k < r.len() ==> #[trigger] r[k]@ == tuple_text(
                    old(self)@.scheme,
                    old(self).tuples.deep_view()[k],
                ),
    {
        let mut string_vector: Vec<String> = Vec::new();
        let mut k: usize = 0;
        while k < self.tuples.len()
            invariant
                k <= self.tuples.len(),
                string_vector.len() == k,
                forall|j: int|
                    0 <= j < k ==> #[trigger] string_vector[j]@ == tuple_text(
                        self.scheme.deep_view(),
                        self.tuples.deep_view()[j],
                    ),
            decreases self.tuples.len() - k,
        {
            let text = row_text(&self.scheme, &self.tuples[k]);
            string_vector.push(text);
            k = k + 1;
        }
        string_vector
    }

    /// The left tuple followed by the right tuple's entries in columns the left scheme lacks.
    pub fn join_tuple(
        &self,
        left_scheme: &[String],
        right_scheme: &[String],
        left_tuple: &Vec<String>,
        right_tuple: &Vec<String>,
    ) -> (r: Vec<String>)
        requires
            join_tuple_safe(left_scheme.deep_view(), right_scheme.deep_view(), right_tuple.deep_view()),
        ensures
            r.deep_view() == join_tuple_val(
                left_scheme.deep_view(),
                right_scheme.deep_view(),
                left_tuple.deep_view(),
                right_tuple.deep_view(),
            ),
    {
        let ghost ls = left_scheme.deep_view();
        let ghost rs = right_scheme.deep_view();
        let ghost rt = right_tuple.deep_view();
        let mut temp = clone_row(left_tuple);
        let mut i: usize = 0;
        assert(extra_entries(ls, rs.take(0), rt) =~= Seq::<Seq<char>>::empty()) by {
            assert(rs.take(0).len() == 0);
        }
        assert(temp.deep_view() =~= left_tuple.deep_view() + extra_entries(ls, rs.take(0), rt));
        while i < right_scheme.len()
            invariant
                i <= right_scheme.len(),
                ls == left_scheme.deep_view(),
                rs == right_scheme.deep_view(),
                rt == right_tuple.deep_view(),
                join_tuple_safe(ls, rs, rt),
                temp.deep_view() == left_tuple.deep_view() + extra_entries(ls, rs.take(i as int), rt),
            decreases right_scheme.len() - i,
        {
            let mut duplicate = false;
            let mut j: usize = 0;
            while j < left_scheme.len() && !duplicate
                invariant
                    i < right_scheme.len(),
                    j <= left_scheme.len(),
                    ls == left_scheme.deep_view(),
                    rs == right_scheme.deep_view(),
                    duplicate == exists|k: int| 0 <= k < j && ls[k] == rs[i as int],
                decreases left_scheme.len() - j,
            {
                if right_scheme[i] == left_scheme[j] {
                    duplicate = true;
                    assert(ls[j as int] == rs[i as int]);
                }
                j = j + 1;
            }
            assert(duplicate == ls.contains(rs[i as int]));
            assert(rs.take(i + 1).drop_last() =~= rs.take(i as int));
            assert(rs.take(i + 1).last() == rs[i as int]);
            let ghost before = temp.deep_view();
            if !duplicate {
                temp.push(right_tuple[i].clone());
                assert(temp.deep_view() =~= before.push(rt[i as int]));
            }
            assert(temp.deep_view() =~= left_tuple.deep_view() + extra_entries(ls, rs.take(i + 1), rt));
            i = i + 1;
        }
        assert(rs.take(right_scheme.len() as int) =~= rs);
        temp
    }
}

/// The pairs of rows visited before row pair `(i, j)`, in row-major order.
pub open spec fn pair_done(nr: int, i: int, j: int, a: int, b: int) -> bool {
    0 <= a && 0 <= b < nr && (a < i || (a == i && b < j))
}

/// The tuples the join has produced once it reaches row pair `(i, j)`.
pub open spec fn join_so_far(
    ls: Seq<Seq<char>>,
    rs: Seq<Seq<char>>,
    lrows: Seq<Tup>,
    rrows: Seq<Tup>,
    i: int,
    j: int,
) -> Set<Tup> {
    Set::new(
        |t: Tup|
            exists|a: int, b: int|
                #![trigger lrows[a], rrows[b]]
                pair_done(rrows.len() as int, i, j, a, b) && a < lrows.len() && joinable_val(
                    ls,
                    rs,
                    lrows[a],
                    rrows[b],
                ) && t == join_tuple_val(ls, rs, lrows[a], rrows[b]),
    )
}

proof fn lemma_join_start(ls: Seq<Seq<char>>, rs: Seq<Seq<char>>, lrows: Seq<Tup>, rrows: Seq<Tup>)
    ensures
        join_so_far(ls, rs, lrows, rrows, 0, 0) == Set::<Tup>::empty(),
{
    assert(join_so_far(ls, rs, lrows, rrows, 0, 0) =~= Set::<Tup>::empty());
}

proof fn lemma_join_step(ls: Seq<Seq<char>>, rs: Seq<Seq<char>>, lrows: Seq<Tup>, rrows: Seq<Tup>, i: int, j: int)
    requires
        0 <= i < lrows.len(),
        0 <= j < rrows.len(),
    ensures
        join_so_far(ls, rs, lrows, rrows, i, j + 1) == if joinable_val(ls, rs, lrows[i], rrows[j]) {
            join_so_far(ls, rs, lrows, rrows, i, j).insert(join_tuple_val(ls, rs, lrows[i], rrows[j]))
        } else {
            join_so_far(ls, rs, lrows, rrows, i, j)
        },
{
    let next = join_so_far(ls, rs, lrows, rrows, i, j + 1);
    let prev = join_so_far(ls, rs, lrows, rrows, i, j);
    let jv = joinable_val(ls, rs, lrows[i], rrows[j]);
    let jt = join_tuple_val(ls, rs, lrows[i], rrows[j]);
    assert forall|t: Tup| next.contains(t) <==> (prev.contains(t) || (jv && t == jt)) by {
        if next.contains(t) {
            let (a, b) = choose|a: int, b: int|
                #![trigger lrows[a], rrows[b]]
                pair_done(rrows.len() as int, i, j + 1, a, b) && a < lrows.len() && joinable_val(
                    ls,
                    rs,
                    lrows[a],
                    rrows[b],
                ) && t == join_tuple_val(ls, rs, lrows[a], rrows[b]);
            if !(a == i && b == j) {
                assert(pair_done(rrows.len() as int, i, j, a, b));
            }
        }
        if prev.contains(t) {
            let (a, b) = choose|a: int, b: int|
                #![trigger lrows[a], rrows[b]]
                pair_done(rrows.len() as int, i, j, a, b) && a < lrows.len() && joinable_val(
                    ls,
                    rs,
                    lrows[a],
                    rrows[b],
                ) && t == join_tuple_val(ls, rs, lrows[a], rrows[b]);
            assert(pair_done(rrows.len() as int, i, j + 1, a, b));
        }
        if jv && t == jt {
            assert(pair_done(rrows.len() as int, i, j + 1, i, j));
            let x = lrows[i];
            let y = rrows[j];
        }
    }
    if jv {
        assert(next =~= prev.insert(jt));
    } else {
        assert(next =~= prev);
    }
}

proof fn lemma_join_row(ls: Seq<Seq<char>>, rs: Seq<Seq<char>>, lrows: Seq<Tup>, rrows: Seq<Tup>, i: int)
    requires
        0 <= i,
    ensures
        join_so_far(ls, rs, lrows, rrows, i, rrows.len() as int) == join_so_far(ls, rs, lrows, rrows, i + 1, 0),
{
    let x = join_so_far(ls, rs, lrows, rrows, i, rrows.len() as int);
    let y = join_so_far(ls, rs, lrows, rrows, i + 1, 0);
    assert forall|t: Tup| x.contains(t) <==> y.contains(t) by {
        if x.contains(t) {
            let (a, b) = choose|a: int, b: int|
                #![trigger lrows[a], rrows[b]]
                pair_done(rrows.len() as int, i, rrows.len() as int, a, b) && a < lrows.len() && joinable_val(
                    ls,
                    rs,
                    lrows[a],
                    rrows[b],
                ) && t == join_tuple_val(ls, rs, lrows[a], rrows[b]);
            assert(pair_done(rrows.len() as int, i + 1, 0, a, b));
        }
        if y.contains(t) {
            let (a, b) = choose|a: int, b: int|
                #![trigger lrows[a], rrows[b]]
                pair_done(rrows.len() as int, i + 1, 0, a, b) && a < lrows.len() && joinable_val(
                    ls,
                    rs,
                    lrows[a],
                    rrows[b],
                ) && t == join_tuple_val(ls, rs, lrows[a], rrows[b]);
            assert(pair_done(rrows.len() as int, i, rrows.len() as int, a, b));
        }
    }
    assert(x =~= y);
}

proof fn lemma_join_end(ls: Seq<Seq<char>>, rs: Seq<Seq<char>>, lrows: Seq<Tup>, rrows: Seq<Tup>)
    ensures
        join_so_far(ls, rs, lrows, rrows, lrows.len() as int, 0) == join_set(ls, rs, lrows.to_set(), rrows.to_set()),
{
    let x = join_so_far(ls, rs, lrows, rrows, lrows.len() as int, 0);
    let y = join_set(ls, rs, lrows.to_set(), rrows.to_set());
    assert forall|t: Tup| x.contains(t) <==> y.contains(t) by {
        if x.contains(t) {
            let (a, b) = choose|a: int, b: int|
                #![trigger lrows[a], rrows[b]]
                pair_done(rrows.len() as int, lrows.len() as int, 0, a, b) && a < lrows.len() && joinable_val(
                    ls,
                    rs,
                    lrows[a],
                    rrows[b],
                ) && t == join_tuple_val(ls, rs, lrows[a], rrows[b]);
            assert(lrows.to_set().contains(lrows[a]));
            assert(rrows.to_set().contains(rrows[b]));
        }
        if y.contains(t) {
            let (l, r) = choose|l: Tup, r: Tup|
                #![trigger lrows.to_set().contains(l), rrows.to_set().contains(r)]
                lrows.to_set().contains(l) && rrows.to_set().contains(r) && joinable_val(ls, rs, l, r) && t
                    == join_tuple_val(ls, rs, l, r);
            let a = choose|a: int| 0 <= a < lrows.len() && lrows[a] == l;
            let b = choose|b: int| 0 <= b < rrows.len() && rrows[b] == r;
            assert(pair_done(rrows.len() as int, lrows.len() as int, 0, a, b));
        }
    }
    assert(x =~= y);
}

/// Every row of the scheme-joining loop keeps the left scheme inside the new one.
proof fn lemma_join_scheme_step(ls: Seq<Seq<char>>, rs: Seq<Seq<char>>, k: int)
    requires
        0 <= k < rs.len(),
    ensures
        join_scheme(ls, rs.take(k + 1)) == if join_scheme(ls, rs.take(k)).contains(rs[k]) {
            join_scheme(ls, rs.take(k))
        } else {
            join_scheme(ls, rs.take(k)).push(rs[k])
        },
{
    assert(rs.take(k + 1).drop_last() =~= rs.take(k));
    assert(rs.take(k + 1).last() == rs[k]);
}

/// `column=value` for each column, joined by `, `.
pub(crate) fn row_text(scheme: &Vec<String>, t: &Vec<String>) -> (r: String)
    ensures
        r@ == tuple_text(scheme.deep_view(), t.deep_view()),
{
    let n = if scheme.len() < t.len() {
        scheme.len()
    } else {
        t.len()
    };
    let ghost parts = Seq::new(n as nat, |i: int| scheme.deep_view()[i] + "="@ + t.deep_view()[i]);
    let mut formatted: Vec<String> = Vec::new();
    let mut i: usize = 0;
    while i < n
        invariant
            i <= n,
            n <= scheme.len(),
            n <= t.len(),
            parts == Seq::new(n as nat, |i: int| scheme.deep_view()[i] + "="@ + t.deep_view()[i]),
            formatted.deep_view() =~= parts.take(i as int),
        decreases n - i,
    {
        let mut item = scheme[i].clone();
        item.append("=");
        item.append(t[i].as_str());
        let ghost before = formatted.deep_view();
        formatted.push(item);
        assert(formatted.deep_view() =~= before.push(parts[i as int]));
        assert(parts.take(i + 1) =~= parts.take(i as int).push(parts[i as int]));
        i = i + 1;
    }
    assert(parts.take(n as int) =~= parts);
    join_strings(&formatted, ", ")
}

/// The entries of `t` at the positions `indices`.
fn pick_row(t: &Vec<String>, indices: &Vec<u32>) -> (r: Vec<String>)
    requires
        forall|k: int| 0 <= k < indices.len() ==> indices[k] < t.len(),
    ensures
        r.deep_view() == pick(t.deep_view(), indices@),
{
    let mut r: Vec<String> = Vec::new();
    let mut k: usize = 0;
    while k < indices.len()
        invariant
            k <= indices.len(),
            forall|j: int| 0 <= j < indices.len() ==> indices[j] < t.len(),
            r.deep_view() =~= pick(t.deep_view(), indices@.take(k as int)),
        decreases indices.len() - k,
    {
        let ghost before = r.deep_view();
        r.push(t[indices[k] as usize].clone());
        assert(r.deep_view() =~= before.push(t.deep_view()[indices[k as int] as int]));
        assert(indices@.take(k + 1) =~= indices@.take(k as int).push(indices[k as int]));
        assert(pick(t.deep_view(), indices@.take(k + 1)) =~= pick(t.deep_view(), indices@.take(k as int)).push(
            t.deep_view()[indices[k as int] as int],
        ));
        k = k + 1;
    }
    assert(indices@.take(indices.len() as int) =~= indices@);
    r
}

} // verus!
