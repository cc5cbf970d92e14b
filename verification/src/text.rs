use vstd::prelude::*;
use vstd::string::*;

verus! {

broadcast use vstd::seq_lib::group_to_multiset_ensures;

// ---------------------------------------------------------------------------
// Orders
// ---------------------------------------------------------------------------

/// Lexicographic order on sequences, given a strict order on the elements.
/// A proper prefix comes first; otherwise the first differing element decides.
pub open spec fn lex_lt<A>(a: Seq<A>, b: Seq<A>, lt: spec_fn(A, A) -> bool) -> bool
    decreases a.len(),
{
    if a.len() == 0 {
        b.len() > 0
    } else if b.len() == 0 {
        false
    } else if a[0] == b[0] {
        lex_lt(a.drop_first(), b.drop_first(), lt)
    } else {
        lt(a[0], b[0])
    }
}

/// `lt` is a strict total order.
pub open spec fn strict_total<A>(lt: spec_fn(A, A) -> bool) -> bool {
    &&& forall|x: A| !(#[trigger] lt(x, x))
    &&& forall|x: A, y: A, z: A| #[trigger] lt(x, y) && #[trigger] lt(y, z) ==> lt(x, z)
    &&& forall|x: A, y: A| x != y ==> #[trigger] lt(x, y) || #[trigger] lt(y, x)
}

/// Characters ordered by code point (the order of `char`).
pub open spec fn char_order() -> spec_fn(char, char) -> bool {
    |x: char, y: char| (x as int) < (y as int)
}

/// Strings ordered as `String`'s `Ord` orders them: lexicographically by code point.
pub open spec fn string_order() -> spec_fn(Seq<char>, Seq<char>) -> bool {
    |a: Seq<char>, b: Seq<char>| lex_lt(a, b, char_order())
}

/// Rows of strings ordered as `Vec<String>`'s `Ord` orders them.
pub open spec fn row_order() -> spec_fn(Seq<Seq<char>>, Seq<Seq<char>>) -> bool {
    |a: Seq<Seq<char>>, b: Seq<Seq<char>>| lex_lt(a, b, string_order())
}

/// No later element is smaller than an earlier one.
pub open spec fn sorted_by<A>(s: Seq<A>, lt: spec_fn(A, A) -> bool) -> bool {
    forall|i: int, j: int| 0 <= i < j < s.len() ==> !lt(#[trigger] s[j], #[trigger] s[i])
}

proof fn lemma_lex_irreflexive<A>(a: Seq<A>, lt: spec_fn(A, A) -> bool)
    requires
        strict_total(lt),
    ensures
        !lex_lt(a, a, lt),
    decreases a.len(),
{
    if a.len() > 0 {
        lemma_lex_irreflexive(a.drop_first(), lt);
    }
}

proof fn lemma_lex_transitive<A>(a: Seq<A>, b: Seq<A>, c: Seq<A>, lt: spec_fn(A, A) -> bool)
    requires
        strict_total(lt),
        lex_lt(a, b, lt),
        lex_lt(b, c, lt),
    ensures
        lex_lt(a, c, lt),
    decreases a.len(),
{
    if a.len() > 0 && b.len() > 0 && c.len() > 0 {
        if a[0] == b[0] && b[0] == c[0] {
            lemma_lex_transitive(a.drop_first(), b.drop_first(), c.drop_first(), lt);
        } else if a[0] == b[0] {
        } else if b[0] == c[0] {
        } else {
            assert(lt(a[0], b[0]) && lt(b[0], c[0]));
            if a[0] == c[0] {
                assert(lt(a[0], a[0]));
            }
        }
    }
}

proof fn lemma_lex_total<A>(a: Seq<A>, b: Seq<A>, lt: spec_fn(A, A) -> bool)
    requires
        strict_total(lt),
        a != b,
    ensures
        lex_lt(a, b, lt) || lex_lt(b, a, lt),
    decreases a.len(),
{
    if a.len() == 0 {
        assert(b.len() > 0) by {
            if b.len() == 0 {
                assert(a =~= b);
            }
        }
    } else if b.len() == 0 {
    } else if a[0] == b[0] {
        assert(a.drop_first() != b.drop_first()) by {
            if a.drop_first() == b.drop_first() {
                assert(a =~= seq![a[0]] + a.drop_first());
                assert(b =~= seq![b[0]] + b.drop_first());
            }
        }
        lemma_lex_total(a.drop_first(), b.drop_first(), lt);
    } else {
    }
}

/// The lexicographic order over a strict total order is a strict total order.
pub proof fn lemma_lex_strict_total<A>(lt: spec_fn(A, A) -> bool)
    requires
        strict_total(lt),
    ensures
        strict_total(|a: Seq<A>, b: Seq<A>| lex_lt(a, b, lt)),
{
    let l = |a: Seq<A>, b: Seq<A>| lex_lt(a, b, lt);
    assert forall|x: Seq<A>| !(#[trigger] l(x, x)) by {
        lemma_lex_irreflexive(x, lt);
    }
    assert forall|x: Seq<A>, y: Seq<A>, z: Seq<A>| #[trigger] l(x, y) && #[trigger] l(y, z) implies l(
        x,
        z,
    ) by {
        lemma_lex_transitive(x, y, z, lt);
    }
    assert forall|x: Seq<A>, y: Seq<A>| x != y implies #[trigger] l(x, y) || #[trigger] l(y, x) by {
        lemma_lex_total(x, y, lt);
    }
}

/// Two sorted sequences without repeats that hold the same elements are equal.
pub proof fn lemma_sorted_set_unique<A>(a: Seq<A>, b: Seq<A>, lt: spec_fn(A, A) -> bool)
    requires
        strict_total(lt),
        sorted_by(a, lt),
        sorted_by(b, lt),
        a.no_duplicates(),
        b.no_duplicates(),
        a.to_set() == b.to_set(),
    ensures
        a == b,
    decreases a.len(),
{
    if a.len() == 0 {
        if b.len() > 0 {
            assert(b.to_set().contains(b[0]));
        }
        assert(a =~= b);
    } else if b.len() == 0 {
        assert(a.to_set().contains(a[0]));
    } else {
        assert(a.to_set().contains(a[0]));
        assert(b.to_set().contains(b[0]));
        let i = choose|i: int| 0 <= i < a.len() && a[i] == b[0];
        let j = choose|j: int| 0 <= j < b.len() && b[j] == a[0];
        if a[0] != b[0] {
            assert(i > 0 && j > 0);
            assert(!lt(a[i], a[0]));
            assert(!lt(b[j], b[0]));
            assert(lt(a[0], b[0]) || lt(b[0], a[0]));
        }
        let a1 = a.drop_first();
        let b1 = b.drop_first();
        assert forall|y: A| a1.to_set().contains(y) <==> b1.to_set().contains(y) by {
            if a1.contains(y) {
                let m = choose|m: int| 0 <= m < a1.len() && a1[m] == y;
                assert(a[m + 1] == y && a[0] != a[m + 1]);
                assert(a.to_set().contains(y));
                let n = choose|n: int| 0 <= n < b.len() && b[n] == y;
                assert(b1[n - 1] == y);
            }
            if b1.contains(y) {
                let m = choose|m: int| 0 <= m < b1.len() && b1[m] == y;
                assert(b[m + 1] == y && b[0] != b[m + 1]);
                assert(b.to_set().contains(y));
                let n = choose|n: int| 0 <= n < a.len() && a[n] == y;
                assert(a1[n - 1] == y);
            }
        }
        assert(a1.to_set() =~= b1.to_set());
        lemma_sorted_set_unique(a1, b1, lt);
        assert(a[0] == b[0]);
        assert(a.len() == b.len());
        assert forall|k: int| 0 <= k < a.len() implies a[k] == b[k] by {
            if k > 0 {
                assert(a[k] == a1[k - 1] && b[k] == b1[k - 1]);
            }
        }
        assert(a =~= b);
    }
}

/// `s` with `x` placed before the first element that `x` precedes.
pub open spec fn insert_in_order<A>(s: Seq<A>, x: A, lt: spec_fn(A, A) -> bool) -> Seq<A>
    decreases s.len(),
{
    if s.len() == 0 {
        seq![x]
    } else if lt(x, s[0]) {
        seq![x] + s
    } else {
        seq![s[0]] + insert_in_order(s.drop_first(), x, lt)
    }
}

proof fn lemma_insert_in_order<A>(s: Seq<A>, x: A, lt: spec_fn(A, A) -> bool)
    requires
        strict_total(lt),
        sorted_by(s, lt),
        s.no_duplicates(),
        !s.contains(x),
    ensures
        sorted_by(insert_in_order(s, x, lt), lt),
        insert_in_order(s, x, lt).no_duplicates(),
        forall|y: A| #[trigger] insert_in_order(s, x, lt).contains(y) <==> s.contains(y) || y == x,
    decreases s.len(),
{
    let r = insert_in_order(s, x, lt);
    if s.len() == 0 {
        assert(r[0] == x);
        assert forall|y: A| #[trigger] r.contains(y) <==> s.contains(y) || y == x by {
            if y == x {
                assert(r[0] == y);
            }
        }
    } else if lt(x, s[0]) {
        assert(r == seq![x] + s);
        assert forall|i: int, j: int| 0 <= i < j < r.len() implies !lt(#[trigger] r[j], #[trigger] r[i]) by {
            if i == 0 {
                assert(r[j] == s[j - 1]);
                assert(s.contains(s[j - 1]));
                if j - 1 > 0 {
                    assert(!lt(s[j - 1], s[0]));
                }
                if lt(s[j - 1], x) {
                    assert(lt(s[j - 1], s[0]));
                }
            } else {
                assert(r[i] == s[i - 1] && r[j] == s[j - 1]);
            }
        }
        assert forall|i: int, j: int| 0 <= i < r.len() && 0 <= j < r.len() && i != j implies r[i] != r[j] by {
            if i == 0 {
                assert(s.contains(r[j]));
            } else if j == 0 {
                assert(s.contains(r[i]));
            } else {
                assert(r[i] == s[i - 1] && r[j] == s[j - 1]);
            }
        }
        assert forall|y: A| #[trigger] r.contains(y) <==> s.contains(y) || y == x by {
            if r.contains(y) {
                let i = choose|i: int| 0 <= i < r.len() && r[i] == y;
                if i > 0 {
                    assert(s[i - 1] == y);
                }
            }
            if s.contains(y) {
                let i = choose|i: int| 0 <= i < s.len() && s[i] == y;
                assert(r[i + 1] == y);
            }
            if y == x {
                assert(r[0] == y);
            }
        }
    } else {
        let t = s.drop_first();
        assert(sorted_by(t, lt)) by {
            assert forall|i: int, j: int| 0 <= i < j < t.len() implies !lt(#[trigger] t[j], #[trigger] t[i]) by {
                assert(t[i] == s[i + 1] && t[j] == s[j + 1]);
            }
        }
        assert(t.no_duplicates()) by {
            assert forall|i: int, j: int| 0 <= i < t.len() && 0 <= j < t.len() && i != j implies t[i] != t[j] by {
                assert(t[i] == s[i + 1] && t[j] == s[j + 1]);
            }
        }
        assert(!t.contains(x)) by {
            if t.contains(x) {
                let i = choose|i: int| 0 <= i < t.len() && t[i] == x;
                assert(s[i + 1] == x);
            }
        }
        lemma_insert_in_order(t, x, lt);
        let rest = insert_in_order(t, x, lt);
        assert(r == seq![s[0]] + rest);
        assert(x != s[0]) by {
            assert(s.contains(s[0]));
        }
        assert(lt(s[0], x));
        assert forall|i: int, j: int| 0 <= i < j < r.len() implies !lt(#[trigger] r[j], #[trigger] r[i]) by {
            if i == 0 {
                assert(r[j] == rest[j - 1]);
                assert(rest.contains(rest[j - 1]));
                if rest[j - 1] != x {
                    assert(t.contains(rest[j - 1]));
                    let k = choose|k: int| 0 <= k < t.len() && t[k] == rest[j - 1];
                    assert(s[k + 1] == rest[j - 1]);
                }
            } else {
                assert(r[i] == rest[i - 1] && r[j] == rest[j - 1]);
            }
        }
        assert(!rest.contains(s[0])) by {
            if t.contains(s[0]) {
                let k = choose|k: int| 0 <= k < t.len() && t[k] == s[0];
                assert(s[k + 1] == s[0]);
            }
        }
        assert forall|i: int, j: int| 0 <= i < r.len() && 0 <= j < r.len() && i != j implies r[i] != r[j] by {
            if i == 0 {
                assert(rest.contains(r[j]));
            } else if j == 0 {
                assert(rest.contains(r[i]));
            } else {
                assert(r[i] == rest[i - 1] && r[j] == rest[j - 1]);
            }
        }
        assert forall|y: A| #[trigger] r.contains(y) <==> s.contains(y) || y == x by {
            if r.contains(y) {
                let i = choose|i: int| 0 <= i < r.len() && r[i] == y;
                if i > 0 {
                    assert(rest.contains(y));
                    if t.contains(y) {
                        let k = choose|k: int| 0 <= k < t.len() && t[k] == y;
                        assert(s[k + 1] == y);
                    }
                } else {
                    assert(s[0] == y);
                }
            }
            if s.contains(y) {
                let i = choose|i: int| 0 <= i < s.len() && s[i] == y;
                if i > 0 {
                    assert(t[i - 1] == y);
                    assert(rest.contains(y));
                    let k = choose|k: int| 0 <= k < rest.len() && rest[k] == y;
                    assert(r[k + 1] == y);
                } else {
                    assert(r[0] == y);
                }
            }
            if y == x {
                assert(rest.contains(y));
                let k = choose|k: int| 0 <= k < rest.len() && rest[k] == y;
                assert(r[k + 1] == y);
            }
        }
    }
}

/// Every finite set can be listed in order, each element once.
pub proof fn lemma_sorted_exists<A>(s: Set<A>, lt: spec_fn(A, A) -> bool)
    requires
        strict_total(lt),
        s.finite(),
    ensures
        exists|q: Seq<A>| sorted_by(q, lt) && q.no_duplicates() && #[trigger] q.to_set() == s,
    decreases s.len(),
{
    if s.len() == 0 {
        let q = Seq::<A>::empty();
        assert(q.to_set() =~= s) by {
            vstd::set_lib::lemma_set_empty_equivalency_len(s);
        }
    } else {
        let x = s.choose();
        assert(s.contains(x)) by {
            vstd::set_lib::lemma_set_empty_equivalency_len(s);
        }
        let s1 = s.remove(x);
        lemma_sorted_exists(s1, lt);
        let q1 = choose|q: Seq<A>| sorted_by(q, lt) && q.no_duplicates() && #[trigger] q.to_set() == s1;
        assert(!q1.contains(x)) by {
            if q1.contains(x) {
                assert(q1.to_set().contains(x));
            }
        }
        lemma_insert_in_order(q1, x, lt);
        let q = insert_in_order(q1, x, lt);
        assert forall|y: A| q.to_set().contains(y) <==> s.contains(y) by {
            if q1.contains(y) {
                assert(q1.to_set().contains(y));
            }
            if s1.contains(y) {
                assert(q1.to_set().contains(y));
            }
        }
        assert(q.to_set() =~= s);
    }
}

/// The orders on strings and on rows are strict total orders.
pub proof fn lemma_orders_strict_total()
    ensures
        strict_total(char_order()),
        strict_total(string_order()),
        strict_total(row_order()),
{
    assert forall|x: char, y: char| x != y implies #[trigger] char_order()(x, y) || #[trigger] char_order()(
        y,
        x,
    ) by {

    }
    lemma_lex_strict_total(char_order());
    assert(string_order() =~= (|a: Seq<char>, b: Seq<char>| lex_lt(a, b, char_order())));
    lemma_lex_strict_total(string_order());
    assert(row_order() =~= (|a: Seq<Seq<char>>, b: Seq<Seq<char>>| lex_lt(a, b, string_order())));
}

proof fn lemma_lex_step<A>(a: Seq<A>, b: Seq<A>, i: int, lt: spec_fn(A, A) -> bool)
    requires
        0 <= i < a.len(),
        i < b.len(),
        a[i] == b[i],
    ensures
        lex_lt(a.skip(i), b.skip(i), lt) == lex_lt(a.skip(i + 1), b.skip(i + 1), lt),
{
    assert(a.skip(i).drop_first() =~= a.skip(i + 1));
    assert(b.skip(i).drop_first() =~= b.skip(i + 1));
}

/// `a < b` in the order of `String`.
pub fn string_lt(a: &String, b: &String) -> (r: bool)
    ensures
        r == string_order()(a@, b@),
{
    let ca = chars_of(a);
    let cb = chars_of(b);
    let mut i: usize = 0;
    assert(ca@.skip(0) =~= ca@);
    assert(cb@.skip(0) =~= cb@);
    while i < ca.len() && i < cb.len()
        invariant
            ca@ == a@,
            cb@ == b@,
            i <= ca.len(),
            i <= cb.len(),
            lex_lt(a@, b@, char_order()) == lex_lt(a@.skip(i as int), b@.skip(i as int), char_order()),
        decreases ca.len() - i,
    {
        if ca[i] != cb[i] {
            let cx: char = ca[i];
            let cy: char = cb[i];
            let lt = cx < cy;
            assert(lt == ((cx as int) < (cy as int)));
            assert(a@.skip(i as int)[0] == ca[i as int] && b@.skip(i as int)[0] == cb[i as int]);
            assert(lex_lt(a@.skip(i as int), b@.skip(i as int), char_order()) == lt);
            return lt;
        }
        proof {
            lemma_lex_step(a@, b@, i as int, char_order());
        }
        i = i + 1;
    }
    i == ca.len() && i < cb.len()
}

/// `a < b` in the order of `Vec<String>`.
pub fn row_lt(a: &Vec<String>, b: &Vec<String>) -> (r: bool)
    ensures
        r == row_order()(a.deep_view(), b.deep_view()),
{
    let ghost da = a.deep_view();
    let ghost db = b.deep_view();
    let mut i: usize = 0;
    assert(da.skip(0) =~= da);
    assert(db.skip(0) =~= db);
    while i < a.len() && i < b.len()
        invariant
            da == a.deep_view(),
            db == b.deep_view(),
            i <= a.len(),
            i <= b.len(),
            lex_lt(da, db, string_order()) == lex_lt(da.skip(i as int), db.skip(i as int), string_order()),
        decreases a.len() - i,
    {
        if a[i] != b[i] {
            let r = string_lt(&a[i], &b[i]);
            assert(da.skip(i as int)[0] == a[i as int]@);
            assert(db.skip(i as int)[0] == b[i as int]@);
            return r;
        }
        proof {
            lemma_lex_step(da, db, i as int, string_order());
        }
        i = i + 1;
    }
    i == a.len() && i < b.len()
}

// ---------------------------------------------------------------------------
// Sorting
// ---------------------------------------------------------------------------

proof fn lemma_sorted_insert<A>(s: Seq<A>, k: int, x: A, lt: spec_fn(A, A) -> bool)
    requires
        strict_total(lt),
        sorted_by(s, lt),
        0 <= k <= s.len(),
        forall|i: int| 0 <= i < k ==> !lt(x, #[trigger] s[i]),
        k < s.len() ==> lt(x, s[k]),
    ensures
        sorted_by(s.insert(k, x), lt),
{
    let t = s.insert(k, x);
    assert forall|i: int, j: int| 0 <= i < j < t.len() implies !lt(#[trigger] t[j], #[trigger] t[i]) by {
        if i < k && j < k {
        } else if i < k && j == k {
        } else if i < k {
            assert(t[j] == s[j - 1]);
        } else if i == k {
            assert(t[j] == s[j - 1]);
            if lt(s[j - 1], x) {
                if j - 1 == k {
                } else {
                    assert(!lt(s[j - 1], s[k]));
                    assert(lt(s[j - 1], s[k]));
                }
            }
        } else {
            assert(t[j] == s[j - 1]);
            assert(t[i] == s[i - 1]);
        }
    }
}

/// The strings, sorted as `sort` sorts a `Vec<String>`.
pub fn sort_strings(v: &Vec<String>) -> (r: Vec<String>)
    ensures
        r.deep_view().to_multiset() == v.deep_view().to_multiset(),
        sorted_by(r.deep_view(), string_order()),
{
    proof {
        lemma_orders_strict_total();
    }
    let mut out: Vec<String> = Vec::new();
    let mut i: usize = 0;
    while i < v.len()
        invariant
            i <= v.len(),
            strict_total(string_order()),
            out.deep_view().to_multiset() == v.deep_view().take(i as int).to_multiset(),
            sorted_by(out.deep_view(), string_order()),
        decreases v.len() - i,
    {
        let x = v[i].clone();
        let mut k: usize = 0;
        while k < out.len() && !string_lt(&x, &out[k])
            invariant
                k <= out.len(),
                forall|j: int| 0 <= j < k ==> !string_order()(x@, #[trigger] out.deep_view()[j]),
            decreases out.len() - k,
        {
            k = k + 1;
        }
        let ghost before = out.deep_view();
        proof {
            lemma_sorted_insert(before, k as int, x@, string_order());
        }
        out.insert(k, x);
        assert(out.deep_view() =~= before.insert(k as int, v.deep_view()[i as int]));
        assert(v.deep_view().take(i + 1) =~= v.deep_view().take(i as int).push(v.deep_view()[i as int]));
        i = i + 1;
    }
    assert(v.deep_view().take(v.len() as int) =~= v.deep_view());
    out
}

/// The rows, sorted as `sort` sorts a `Vec<Vec<String>>`.
pub fn sort_rows(v: &Vec<Vec<String>>) -> (r: Vec<Vec<String>>)
    ensures
        r.deep_view().to_multiset() == v.deep_view().to_multiset(),
        sorted_by(r.deep_view(), row_order()),
        v.deep_view().no_duplicates() ==> r.deep_view().no_duplicates(),
{
    proof {
        lemma_orders_strict_total();
    }
    let mut out: Vec<Vec<String>> = Vec::new();
    let mut i: usize = 0;
    while i < v.len()
        invariant
            i <= v.len(),
            strict_total(row_order()),
            out.deep_view().to_multiset() == v.deep_view().take(i as int).to_multiset(),
            sorted_by(out.deep_view(), row_order()),
            v.deep_view().no_duplicates() ==> out.deep_view().no_duplicates(),
        decreases v.len() - i,
    {
        let x = clone_row(&v[i]);
        let mut k: usize = 0;
        while k < out.len() && !row_lt(&x, &out[k])
            invariant
                k <= out.len(),
                forall|j: int| 0 <= j < k ==> !row_order()(x.deep_view(), #[trigger] out.deep_view()[j]),
            decreases out.len() - k,
        {
            k = k + 1;
        }
        let ghost before = out.deep_view();
        proof {
            lemma_sorted_insert(before, k as int, x.deep_view(), row_order());
            if v.deep_view().no_duplicates() {
                assert(!v.deep_view().take(i as int).contains(v.deep_view()[i as int]));
                if before.contains(x.deep_view()) {
                    vstd::seq_lib::to_multiset_contains(before, x.deep_view());
                    vstd::seq_lib::to_multiset_contains(v.deep_view().take(i as int), x.deep_view());
                }
                assert(!before.contains(x.deep_view()));
            }
        }
        out.insert(k, x);
        assert(out.deep_view() =~= before.insert(k as int, v.deep_view()[i as int]));
        assert(v.deep_view().take(i + 1) =~= v.deep_view().take(i as int).push(v.deep_view()[i as int]));
        i = i + 1;
    }
    assert(v.deep_view().take(v.len() as int) =~= v.deep_view());
    out
}

// ---------------------------------------------------------------------------
// Building strings
// ---------------------------------------------------------------------------

/// Calls `String::push`: the string afterwards is the string before with `c` at its end, as
/// the documentation of `String::push` states.
#[verifier::external_body]
pub(crate) fn push_char(s: &mut String, c: char)
    ensures
        final(s)@ == old(s)@.push(c),
{
    s.push(c);
}

/// The characters of a string, in order.
pub fn chars_of(s: &String) -> (r: Vec<char>)
    ensures
        r@ == s@,
{
    let mut r: Vec<char> = Vec::new();
    for c in it: s.as_str().chars()
        invariant
            it.seq() == s@,
            r@ == it.seq().take(it.index() as int),
    {
        r.push(c);
    }
    r
}

/// The string made of the characters `cs[from..to]`.
pub fn string_of_chars(cs: &Vec<char>, from: usize, to: usize) -> (r: String)
    requires
        from <= to <= cs.len(),
    ensures
        r@ == cs@.subrange(from as int, to as int),
{
    let mut r = String::new();
    let mut i = from;
    while i < to
        invariant
            from <= i <= to <= cs.len(),
            r@ == cs@.subrange(from as int, i as int),
        decreases to - i,
    {
        push_char(&mut r, cs[i]);
        assert(cs@.subrange(from as int, i + 1) =~= cs@.subrange(from as int, i as int).push(cs[i as int]));
        i = i + 1;
    }
    r
}

/// A copy of a row of strings.
pub fn clone_row(t: &Vec<String>) -> (r: Vec<String>)
    ensures
        r.deep_view() == t.deep_view(),
{
    let mut r: Vec<String> = Vec::new();
    let mut i: usize = 0;
    while i < t.len()
        invariant
            i <= t.len(),
            r.deep_view() =~= t.deep_view().take(i as int),
        decreases t.len() - i,
    {
        let s = t[i].clone();
        let ghost before = r.deep_view();
        r.push(s);
        assert(r.deep_view() =~= before.push(t.deep_view()[i as int]));
        assert(t.deep_view().take(i + 1) =~= t.deep_view().take(i as int).push(t.deep_view()[i as int]));
        i = i + 1;
    }
    assert(t.deep_view().take(t.len() as int) =~= t.deep_view());
    r
}

/// Whether the string's first character is a single quote.
pub fn starts_with_quote(s: &String) -> (r: bool)
    ensures
        r == (s@.len() > 0 && s@[0] == '\''),
{
    let cs = chars_of(s);
    cs.len() > 0 && cs[0] == '\''
}

/// Whether `s` occurs in `v`.
pub fn contains_string(v: &Vec<String>, s: &String) -> (r: bool)
    ensures
        r == v.deep_view().contains(s@),
{
    let mut i: usize = 0;
    while i < v.len()
        invariant
            i <= v.len(),
            forall|j: int| 0 <= j < i ==> v.deep_view()[j] != s@,
        decreases v.len() - i,
    {
        if v[i] == *s {
            assert(v.deep_view()[i as int] == s@);
            return true;
        }
        i = i + 1;
    }
    false
}

/// The digit `d` (below ten) as a character.
pub open spec fn digit_char(d: nat) -> char {
    if d == 0 {
        '0'
    } else if d == 1 {
        '1'
    } else if d == 2 {
        '2'
    } else if d == 3 {
        '3'
    } else if d == 4 {
        '4'
    } else if d == 5 {
        '5'
    } else if d == 6 {
        '6'
    } else if d == 7 {
        '7'
    } else if d == 8 {
        '8'
    } else {
        '9'
    }
}

/// The decimal notation of `n`, without leading zeros.
pub open spec fn decimal(n: nat) -> Seq<char>
    decreases n,
{
    if n < 10 {
        seq![digit_char(n)]
    } else {
        decimal(n / 10).push(digit_char(n % 10))
    }
}

fn exec_digit_char(d: u64) -> (c: char)
    requires
        d < 10,
    ensures
        c == digit_char(d as nat),
{
    if d == 0 {
        '0'
    } else if d == 1 {
        '1'
    } else if d == 2 {
        '2'
    } else if d == 3 {
        '3'
    } else if d == 4 {
        '4'
    } else if d == 5 {
        '5'
    } else if d == 6 {
        '6'
    } else if d == 7 {
        '7'
    } else if d == 8 {
        '8'
    } else {
        '9'
    }
}

/// Appends the decimal notation of `n`.
pub fn push_decimal(s: &mut String, n: u64)
    ensures
        final(s)@ == old(s)@ + decimal(n as nat),
    decreases n,
{
    if n >= 10 {
        push_decimal(s, n / 10);
    }
    push_char(s, exec_digit_char(n % 10));
    assert(final(s)@ =~= old(s)@ + decimal(n as nat));
}

/// `parts` joined, with `sep` between consecutive parts.
pub open spec fn join(parts: Seq<Seq<char>>, sep: Seq<char>) -> Seq<char>
    decreases parts.len(),
{
    if parts.len() == 0 {
        Seq::empty()
    } else if parts.len() == 1 {
        parts[0]
    } else {
        join(parts.drop_last(), sep) + sep + parts.last()
    }
}

/// The strings joined with `sep` between them (`join` on a slice of strings).
pub fn join_strings(parts: &Vec<String>, sep: &str) -> (r: String)
    ensures
        r@ == join(parts.deep_view(), sep@),
{
    let mut r = String::new();
    let mut i: usize = 0;
    while i < parts.len()
        invariant
            i <= parts.len(),
            r@ == join(parts.deep_view().take(i as int), sep@),
        decreases parts.len() - i,
    {
        if i > 0 {
            r.append(sep);
        }
        r.append(parts[i].as_str());
        assert(parts.deep_view().take(i + 1).drop_last() =~= parts.deep_view().take(i as int));
        assert(r@ =~= join(parts.deep_view().take(i + 1), sep@));
        i = i + 1;
    }
    assert(parts.deep_view().take(parts.len() as int) =~= parts.deep_view());
    r
}

} // verus!
