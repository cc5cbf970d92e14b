use vstd::prelude::*;
use vstd::string::*;
use crate::parser::Rule;
use crate::text::{decimal, join, join_strings, push_decimal};

verus! {

/// The entries are strictly increasing.
pub open spec fn increasing(s: Seq<u32>) -> bool {
    forall|i: int, j: int| 0 <= i < j < s.len() ==> s[i] < s[j]
}

/// `s` with `x` added in its place, if it is not there yet.
pub open spec fn insert_sorted(s: Seq<u32>, x: u32) -> Seq<u32>
    decreases s.len(),
{
    if s.len() == 0 {
        seq![x]
    } else if x < s[0] {
        seq![x] + s
    } else if x == s[0] {
        s
    } else {
        seq![s[0]] + insert_sorted(s.drop_first(), x)
    }
}

/// The place of `x` in the increasing `s`: the first position whose entry is not below `x`.
#[verifier::spinoff_prover]
#[verifier::rlimit(40)]
pub proof fn lemma_insert_sorted(s: Seq<u32>, x: u32, k: int)
    requires
        increasing(s),
        0 <= k <= s.len(),
        forall|j: int| 0 <= j < k ==> s[j] < x,
        k < s.len() ==> x <= s[k],
    ensures
        insert_sorted(s, x) == if k < s.len() && s[k] == x {
            s
        } else {
            s.insert(k, x)
        },
        increasing(insert_sorted(s, x)),
        insert_sorted(s, x).to_set() == s.to_set().insert(x),
    decreases k,
{
    if s.len() == 0 {
        assert(s.insert(k, x) =~= seq![x]);
        assert(seq![x].to_set() =~= s.to_set().insert(x)) by {
            assert(seq![x][0] == x);
        }
    } else if k == 0 {
        if s[0] == x {
            assert(s.to_set() =~= s.to_set().insert(x)) by {
                assert(s.to_set().contains(s[0]));
            }
        } else {
            assert(s.insert(0, x) =~= seq![x] + s);
            assert forall|y: u32| (seq![x] + s).to_set().contains(y) <==> s.to_set().insert(x).contains(y) by {
                if (seq![x] + s).contains(y) {
                    let i = choose|i: int| 0 <= i < (seq![x] + s).len() && (seq![x] + s)[i] == y;
                    if i > 0 {
                        assert(s[i - 1] == y);
                    }
                }
                if s.contains(y) {
                    let i = choose|i: int| 0 <= i < s.len() && s[i] == y;
                    assert((seq![x] + s)[i + 1] == y);
                }
                if y == x {
                    assert((seq![x] + s)[0] == y);
                }
            }
            assert((seq![x] + s).to_set() =~= s.to_set().insert(x));
        }
    } else {
        let t = s.drop_first();
        assert(increasing(t));
        lemma_insert_sorted(t, x, k - 1);
        let r = insert_sorted(t, x);
        if k - 1 < t.len() && t[k - 1] == x {
            assert(s =~= seq![s[0]] + t);
        } else {
            assert(s.insert(k, x) =~= seq![s[0]] + t.insert(k - 1, x));
        }
        assert forall|i: int, j: int| 0 <= i < j < (seq![s[0]] + r).len() implies (seq![s[0]] + r)[i] < (seq![
            s[0],
        ] + r)[j] by {
            if i == 0 {
                assert(r.to_set().contains(r[j - 1]));
                assert(t.to_set().insert(x).contains(r[j - 1]));
                if t.contains(r[j - 1]) {
                    let m = choose|m: int| 0 <= m < t.len() && t[m] == r[j - 1];
                    assert(s[m + 1] == t[m]);
                }
            }
        }
        assert forall|y: u32| (seq![s[0]] + r).to_set().contains(y) <==> s.to_set().insert(x).contains(y) by {
            if (seq![s[0]] + r).contains(y) {
                let i = choose|i: int| 0 <= i < (seq![s[0]] + r).len() && (seq![s[0]] + r)[i] == y;
                if i > 0 {
                    assert(r.to_set().contains(y));
                    if t.contains(y) {
                        let m = choose|m: int| 0 <= m < t.len() && t[m] == y;
                        assert(s[m + 1] == y);
                    }
                }
            }
            if s.contains(y) {
                let i = choose|i: int| 0 <= i < s.len() && s[i] == y;
                if i > 0 {
                    assert(t[i - 1] == y);
                    assert(t.to_set().contains(y));
                    assert(r.to_set().contains(y));
                    let m = choose|m: int| 0 <= m < r.len() && r[m] == y;
                    assert((seq![s[0]] + r)[m + 1] == y);
                } else {
                    assert((seq![s[0]] + r)[0] == y);
                }
            }
            if y == x {
                assert(r.to_set().contains(y));
                let m = choose|m: int| 0 <= m < r.len() && r[m] == y;
                assert((seq![s[0]] + r)[m + 1] == y);
            }
        }
        assert((seq![s[0]] + r).to_set() =~= s.to_set().insert(x));
    }
}

/// `insert_sorted` adds `x` and keeps the rest.
pub proof fn lemma_contains_insert_sorted(s: Seq<u32>, x: u32, y: u32)
    ensures
        insert_sorted(s, x).contains(y) == (s.contains(y) || y == x),
    decreases s.len(),
{
    if s.len() > 0 && x > s[0] {
        lemma_contains_insert_sorted(s.drop_first(), x, y);
        let r = insert_sorted(s.drop_first(), x);
        if (seq![s[0]] + r).contains(y) {
            let i = choose|i: int| 0 <= i < (seq![s[0]] + r).len() && (seq![s[0]] + r)[i] == y;
            if i > 0 {
                assert(r[i - 1] == y);
            }
        }
        if r.contains(y) {
            let i = choose|i: int| 0 <= i < r.len() && r[i] == y;
            assert((seq![s[0]] + r)[i + 1] == y);
        }
        if s.contains(y) {
            let i = choose|i: int| 0 <= i < s.len() && s[i] == y;
            if i > 0 {
                assert(s.drop_first()[i - 1] == y);
            } else {
                assert((seq![s[0]] + r)[0] == y);
            }
        }
        if s.drop_first().contains(y) {
            let i = choose|i: int| 0 <= i < s.drop_first().len() && s.drop_first()[i] == y;
            assert(s[i + 1] == y);
        }
    } else if s.len() > 0 && x < s[0] {
        if (seq![x] + s).contains(y) {
            let i = choose|i: int| 0 <= i < (seq![x] + s).len() && (seq![x] + s)[i] == y;
            if i > 0 {
                assert(s[i - 1] == y);
            }
        }
        if s.contains(y) {
            let i = choose|i: int| 0 <= i < s.len() && s[i] == y;
            assert((seq![x] + s)[i + 1] == y);
        }
        if y == x {
            assert((seq![x] + s)[0] == y);
        }
    } else if s.len() > 0 {
        if y == x {
            assert(s[0] == y);
        }
    } else {
        if y == x {
            assert(seq![x][0] == y);
        }
    }
}

/// Two increasing sequences with the same entries are equal.
pub proof fn lemma_increasing_unique(a: Seq<u32>, b: Seq<u32>)
    requires
        increasing(a),
        increasing(b),
        a.to_set() == b.to_set(),
    ensures
        a == b,
    decreases a.len(),
{
    if a.len() == 0 {
        if b.len() > 0 {
            assert(b.to_set().contains(b[0]));
        }
        assert(a =~= b);
    } else if b.len() == 0 {
        assert(a.to_set().contains(a[0]));
    } else {
        assert(a.to_set().contains(a[0]));
        assert(b.to_set().contains(b[0]));
        let i = choose|i: int| 0 <= i < a.len() && a[i] == b[0];
        let j = choose|j: int| 0 <= j < b.len() && b[j] == a[0];
        if i > 0 {
            assert(a[0] < a[i]);
        }
        if j > 0 {
            assert(b[0] < b[j]);
        }
        assert(a[0] == b[0]);
        let a1 = a.drop_first();
        let b1 = b.drop_first();
        assert forall|y: u32| a1.to_set().contains(y) <==> b1.to_set().contains(y) by {
            if a1.contains(y) {
                let m = choose|m: int| 0 <= m < a1.len() && a1[m] == y;
                assert(a[m + 1] == y && a[0] < a[m + 1]);
                assert(a.to_set().contains(y));
                let n = choose|n: int| 0 <= n < b.len() && b[n] == y;
                assert(n != 0);
                assert(b1[n - 1] == y);
            }
            if b1.contains(y) {
                let m = choose|m: int| 0 <= m < b1.len() && b1[m] == y;
                assert(b[m + 1] == y && b[0] < b[m + 1]);
                assert(b.to_set().contains(y));
                let n = choose|n: int| 0 <= n < a.len() && a[n] == y;
                assert(n != 0);
                assert(a1[n - 1] == y);
            }
        }
        assert(a1.to_set() =~= b1.to_set());
        lemma_increasing_unique(a1, b1);
        assert(a.len() == b.len());
        assert forall|k: int| 0 <= k < a.len() implies a[k] == b[k] by {
            if k > 0 {
                assert(a[k] == a1[k - 1] && b[k] == b1[k - 1]);
            }
        }
        assert(a =~= b);
    }
}

/// Where `x` belongs in the increasing `v`, and whether it is there.
fn find_place(v: &Vec<u32>, x: u32) -> (r: (usize, bool))
    requires
        increasing(v@),
    ensures
        r.0 <= v.len(),
        forall|j: int| 0 <= j < r.0 ==> v@[j] < x,
        r.0 < v.len() ==> x <= v@[r.0 as int],
        r.1 == (r.0 < v.len() && v@[r.0 as int] == x),
        r.1 == v@.contains(x),
{
    let mut k: usize = 0;
    while k < v.len() && v[k] < x
        invariant
            k <= v.len(),
            forall|j: int| 0 <= j < k ==> v@[j] < x,
        decreases v.len() - k,
    {
        k = k + 1;
    }
    let found = k < v.len() && v[k] == x;
    proof {
        if !found && v@.contains(x) {
            let j = choose|j: int| 0 <= j < v.len() && v@[j] == x;
            if j >= k {
                assert(v@[k as int] <= v@[j]);
            }
        }
    }
    (k, found)
}

/// The ids of `v` in increasing order, each once.
pub fn sort_ids(v: &Vec<u32>) -> (r: Vec<u32>)
    ensures
        increasing(r@),
        r@.to_set() == v@.to_set(),
{
    let mut out: Vec<u32> = Vec::new();
    let mut i: usize = 0;
    while i < v.len()
        invariant
            i <= v.len(),
            increasing(out@),
            out@.to_set() == v@.take(i as int).to_set(),
        decreases v.len() - i,
    {
        let x = v[i];
        let (k, found) = find_place(&out, x);
        let ghost before = out@;
        proof {
            lemma_insert_sorted(before, x, k as int);
            assert(v@.take(i + 1) =~= v@.take(i as int).push(x));
            v@.take(i as int).lemma_push_to_set_commute(x);
        }
        if !found {
            out.insert(k, x);
        }
        assert(out@ == insert_sorted(before, x));
        i = i + 1;
    }
    assert(v@.take(v.len() as int) =~= v@);
    out
}

/// A node of the dependency graph: the rules it depends on, and whether a search reached it.
pub struct Node {
    adjacent_nodes: Vec<u32>,
    visited: bool,
}

impl Node {
    /// A node with no edges, not yet reached.
    pub fn new() -> (r: Node)
        ensures
            r.edges() == Seq::<u32>::empty(),
            !r.is_visited(),
    {
        Node { adjacent_nodes: Vec::new(), visited: false }
    }

    /// The nodes this one has edges to, in increasing order.
    pub closed spec fn edges(&self) -> Seq<u32> {
        self.adjacent_nodes@
    }

    /// Whether a search reached the node.
    pub closed spec fn is_visited(&self) -> bool {
        self.visited
    }

    /// The text of the node's edges: `R1,R2,...`, in increasing order.
    pub fn to_string(&self) -> (r: String)
        ensures
            r@ == edges_text(self.edges()),
    {
        ids_text(&self.adjacent_nodes)
    }
}

/// The text of a list of rule numbers: `R1,R2,...`.
pub fn ids_text(ids: &Vec<u32>) -> (r: String)
    ensures
        r@ == edges_text(ids@),
{
    let mut parts: Vec<String> = Vec::new();
    let mut i: usize = 0;
    while i < ids.len()
        invariant
            i <= ids.len(),
            parts.deep_view() =~= ids@.take(i as int).map_values(|id: u32| rule_label(id)),
        decreases ids.len() - i,
    {
        let p = label(ids[i]);
        let ghost before = parts.deep_view();
        parts.push(p);
        assert(parts.deep_view() =~= before.push(rule_label(ids@[i as int])));
        i = i + 1;
    }
    assert(ids@.take(ids.len() as int) =~= ids@);
    join_strings(&parts, ",")
}

/// The label of rule `id`: `R` and its number.
pub fn label(id: u32) -> (r: String)
    ensures
        r@ == rule_label(id),
{
    let mut p = String::from_str("R");
    push_decimal(&mut p, id as u64);
    p
}

/// The label of a rule: `R` and its number.
pub open spec fn rule_label(id: u32) -> Seq<char> {
    "R"@ + decimal(id as nat)
}

/// The text of a list of edges: `R1,R2,...`.
pub open spec fn edges_text(es: Seq<u32>) -> Seq<char> {
    join(es.map_values(|id: u32| rule_label(id)), ","@)
}

/// The dependency graph of the rules: a node per rule, with the state of the searches over it.
pub struct Graph {
    ids: Vec<u32>,
    nodes: Vec<Node>,
    temp: Vec<u32>,
    temp_set: Vec<u32>,
}

impl Graph {
    /// The node ids, in increasing order.
    pub closed spec fn ids(&self) -> Seq<u32> {
        self.ids@
    }

    /// The edges of each node, each list in increasing order.
    pub closed spec fn adj(&self) -> Map<u32, Seq<u32>> {
        Map::new(
            |k: u32| self.ids@.contains(k),
            |k: u32| self.nodes@[choose|i: int| 0 <= i < self.ids@.len() && self.ids@[i] == k].edges(),
        )
    }

    /// The nodes a search has reached.
    pub closed spec fn visited(&self) -> Set<u32> {
        Set::new(
            |k: u32|
                exists|i: int| 0 <= i < self.ids@.len() && self.ids@[i] == k && self.nodes@[i].is_visited(),
        )
    }

    /// The nodes in the order depth-first searches finished them.
    pub closed spec fn finished(&self) -> Seq<u32> {
        self.temp@
    }

    /// The nodes collected by the current component search.
    pub closed spec fn collected(&self) -> Set<u32> {
        self.temp_set@.to_set()
    }

    /// Ids increasing, a node per id, edge lists increasing, no node collected twice.
    pub closed spec fn wf(&self) -> bool {
        &&& increasing(self.ids@)
        &&& self.ids@.len() == self.nodes@.len()
        &&& forall|i: int| 0 <= i < self.nodes@.len() ==> increasing(#[trigger] self.nodes@[i].edges())
        &&& self.temp_set@.no_duplicates()
    }

    proof fn lemma_index(&self, i: int)
        requires
            self.wf(),
            0 <= i < self.ids@.len(),
        ensures
            self.adj().contains_key(self.ids@[i]),
            self.adj()[self.ids@[i]] == self.nodes@[i].edges(),
            self.visited().contains(self.ids@[i]) == self.nodes@[i].is_visited(),
    {
        let k = self.ids@[i];
        assert(self.ids@.contains(k));
        let j = choose|j: int| 0 <= j < self.ids@.len() && self.ids@[j] == k;
        if j != i {
            if j < i {
                assert(self.ids@[j] < self.ids@[i]);
            } else {
                assert(self.ids@[i] < self.ids@[j]);
            }
        }
        if self.visited().contains(k) {
            let j = choose|j: int| 0 <= j < self.ids@.len() && self.ids@[j] == k && self.nodes@[j].is_visited();
            if j != i {
                if j < i {
                    assert(self.ids@[j] < self.ids@[i]);
                } else {
                    assert(self.ids@[i] < self.ids@[j]);
                }
            }
        }
    }

    /// Each list of edges is increasing.
    pub proof fn lemma_adj_increasing(&self)
        requires
            self.wf(),
        ensures
            forall|k: u32| self.adj().contains_key(k) ==> increasing(#[trigger] self.adj()[k]),
    {
        assert forall|k: u32| self.adj().contains_key(k) implies increasing(#[trigger] self.adj()[k]) by {
            let i = choose|i: int| 0 <= i < self.ids@.len() && self.ids@[i] == k;
            self.lemma_index(i);
        }
    }

    /// The domain of the edges is the set of ids, and searches reach only nodes.
    pub proof fn lemma_domain(&self)
        requires
            self.wf(),
        ensures
            self.adj().dom() == self.ids().to_set(),
            self.visited().subset_of(self.ids().to_set()),
            self.adj().dom().finite(),
    {
        assert(self.adj().dom() =~= self.ids().to_set());
    }

    fn find_node(&self, id: u32) -> (r: Option<usize>)
        requires
            self.wf(),
        ensures
            match r {
                Some(i) => i < self.ids@.len() && self.ids@[i as int] == id && self.adj().contains_key(id)
                    && self.adj()[id] == self.nodes@[i as int].edges() && self.visited().contains(id)
                    == self.nodes@[i as int].is_visited(),
                None => !self.adj().contains_key(id) && !self.visited().contains(id),
            },
    {
        let (k, found) = find_place(&self.ids, id);
        if found {
            proof {
                self.lemma_index(k as int);
            }
            Some(k)
        } else {
            None
        }
    }

    /// A graph with a node, without edges, for each rule, numbered from 0.
    pub fn new(rules: Vec<Rule>) -> (g: Graph)
        requires
            rules.len() <= u32::MAX as nat + 1,
        ensures
            g.wf(),
            g.ids() == Seq::new(rules.len() as nat, |i: int| i as u32),
            g.adj() == Map::new(|k: u32| (k as int) < rules.len(), |k: u32| Seq::<u32>::empty()),
            g.visited() == Set::<u32>::empty(),
            g.finished() == Seq::<u32>::empty(),
            g.collected() == Set::<u32>::empty(),
    {
        let mut ids: Vec<u32> = Vec::new();
        let mut nodes: Vec<Node> = Vec::new();
        let n = rules.len();
        let mut i: usize = 0;
        while i < n
            invariant
                i <= n,
                n <= u32::MAX as nat + 1,
                ids@ == Seq::new(i as nat, |j: int| j as u32),
                nodes@.len() == i,
                forall|j: int| 0 <= j < i ==> (#[trigger] nodes@[j]).edges() == Seq::<u32>::empty() && !nodes@[j].is_visited(),
            decreases n - i,
        {
            ids.push(i as u32);
            nodes.push(Node::new());
            assert(ids@ =~= Seq::new((i + 1) as nat, |j: int| j as u32));
            i = i + 1;
        }
        let g = Graph { ids, nodes, temp: Vec::new(), temp_set: Vec::new() };
        assert forall|k: u32| g.adj().contains_key(k) == ((k as int) < n) by {
            if (k as int) < n {
                assert(g.ids@[k as int] == k);
            }
        }
        assert forall|k: u32| g.adj().contains_key(k) implies g.adj()[k] == Seq::<u32>::empty() by {
            let j = choose|j: int| 0 <= j < g.ids@.len() && g.ids@[j] == k;
        }
        assert(g.adj() =~= Map::new(|k: u32| (k as int) < rules.len(), |k: u32| Seq::<u32>::empty()));
        assert(g.visited() =~= Set::<u32>::empty());
        assert(g.collected() =~= Set::<u32>::empty());
        assert(g.finished() =~= Seq::<u32>::empty());
        g
    }

    /// Adds the edge `from_id -> to_id`, and the node `from_id` if it is new.
    pub fn add_edge(&mut self, from_id: u32, to_id: u32)
        requires
            old(self).wf(),
        ensures
            final(self).wf(),
            final(self).adj() == old(self).adj().insert(
                from_id,
                insert_sorted(
                    if old(self).adj().contains_key(from_id) {
                        old(self).adj()[from_id]
                    } else {
                        Seq::<u32>::empty()
                    },
                    to_id,
                ),
            ),
            final(self).ids() == insert_sorted(old(self).ids(), from_id),
            final(self).visited() == old(self).visited(),
            final(self).finished() == old(self).finished(),
            final(self).collected() == old(self).collected(),
    {
        let ghost old_g = *self;
        let ghost old_edges = if old_g.adj().contains_key(from_id) {
            old_g.adj()[from_id]
        } else {
            Seq::<u32>::empty()
        };
        let (k, found) = find_place(&self.ids, from_id);
        proof {
            lemma_insert_sorted(old_g.ids@, from_id, k as int);
        }
        if !found {
            self.ids.insert(k, from_id);
            self.nodes.insert(k, Node::new());
            assert(self.nodes@[k as int].edges() == Seq::<u32>::empty());
            assert(forall|i: int| 0 <= i < k ==> self.nodes@[i] == old_g.nodes@[i] && self.ids@[i] == old_g.ids@[i]);
            assert(forall|i: int| k <= i < old_g.nodes@.len() ==> self.nodes@[i + 1] == old_g.nodes@[i] && self.ids@[i + 1] == old_g.ids@[i]);
        } else {
            proof {
                old_g.lemma_index(k as int);
            }
        }
        assert(self.ids@ == insert_sorted(old_g.ids@, from_id));
        assert(self.ids@[k as int] == from_id);
        assert(self.nodes@[k as int].edges() == old_edges) by {
            if found {
                old_g.lemma_index(k as int);
            }
        }
        assert(increasing(old_edges)) by {
            if found {
                assert(increasing(old_g.nodes@[k as int].edges()));
            }
        }
        let (j, present) = find_place(&self.nodes[k].adjacent_nodes, to_id);
        proof {
            lemma_insert_sorted(old_edges, to_id, j as int);
        }
        let ghost mid = *self;
        if !present {
            self.nodes[k].adjacent_nodes.insert(j, to_id);
        }
        assert(forall|i: int| 0 <= i < self.nodes@.len() && i != k ==> self.nodes@[i] == mid.nodes@[i]);
        assert(self.nodes@.len() == mid.nodes@.len());
        assert(self.ids@ == mid.ids@);
        assert(self.nodes@[k as int].edges() == insert_sorted(old_edges, to_id));
        // the position of an old node in the new arrays
        let ghost shift = |i: int| if !found && i >= k { i + 1 } else { i };
        assert forall|i: int| 0 <= i < old_g.ids@.len() && old_g.ids@[i] != from_id implies self.ids@[shift(i)] == old_g.ids@[i]
            && shift(i) != k && self.nodes@[shift(i)] == old_g.nodes@[i] by {
            if !found && i >= k {
                assert(self.ids@[i + 1] == old_g.ids@[i]);
            } else if found {
                if i == k {
                    assert(old_g.ids@[i] == from_id);
                }
            }
        }
        assert(self.wf()) by {
            assert forall|i: int| 0 <= i < self.nodes@.len() implies increasing(#[trigger] self.nodes@[i].edges()) by {
                if i != k {
                    if !found && i > k {
                        assert(self.nodes@[i] == old_g.nodes@[i - 1]);
                    } else {
                        assert(self.nodes@[i] == old_g.nodes@[i]);
                    }
                }
            }
        }
        let ghost target = old_g.adj().insert(from_id, insert_sorted(old_edges, to_id));
        assert forall|x: u32| #[trigger] self.adj().contains_key(x) == target.contains_key(x) && (self.adj().contains_key(x)
            ==> self.adj()[x] == target[x]) by {
            lemma_contains_insert_sorted(old_g.ids@, from_id, x);
            if x == from_id {
                self.lemma_index(k as int);
            } else if old_g.adj().contains_key(x) {
                let i = choose|i: int| 0 <= i < old_g.ids@.len() && old_g.ids@[i] == x;
                old_g.lemma_index(i);
                self.lemma_index(shift(i));
            }
        }
        assert(self.adj() =~= target);
        assert forall|x: u32| self.visited().contains(x) == old_g.visited().contains(x) by {
            if self.visited().contains(x) {
                let i = choose|i: int| 0 <= i < self.ids@.len() && self.ids@[i] == x && self.nodes@[i].is_visited();
                if i != k {
                    let oi = if !found && i > k { i - 1 } else { i };
                    assert(shift(oi) == i);
                    assert(old_g.ids@[oi] == x);
                } else {
                    if found {
                        assert(old_g.ids@[i] == x);
                    }
                }
            }
            if old_g.visited().contains(x) {
                let i = choose|i: int| 0 <= i < old_g.ids@.len() && old_g.ids@[i] == x && old_g.nodes@[i].is_visited();
                if found && i == k {
                    assert(self.ids@[k as int] == x);
                } else {
                    assert(self.ids@[shift(i)] == x);
                }
            }
        }
        assert(self.visited() =~= old_g.visited());
    }

    proof fn lemma_flags(old_g: &Graph, new_g: &Graph)
        requires
            old_g.wf(),
            new_g.ids@ == old_g.ids@,
            new_g.nodes@.len() == old_g.nodes@.len(),
            forall|i: int| 0 <= i < new_g.nodes@.len() ==> (#[trigger] new_g.nodes@[i]).edges() == old_g.nodes@[i].edges(),
            new_g.temp_set@ == old_g.temp_set@,
        ensures
            new_g.wf(),
            new_g.adj() == old_g.adj(),
    {
        assert forall|i: int| 0 <= i < new_g.nodes@.len() implies increasing(#[trigger] new_g.nodes@[i].edges()) by {
            assert(increasing(old_g.nodes@[i].edges()));
        }
        assert forall|x: u32| #[trigger] new_g.adj().contains_key(x) == old_g.adj().contains_key(x) && (new_g.adj().contains_key(x)
            ==> new_g.adj()[x] == old_g.adj()[x]) by {
            if new_g.adj().contains_key(x) {
                let i = choose|i: int| 0 <= i < new_g.ids@.len() && new_g.ids@[i] == x;
                new_g.lemma_index(i);
                old_g.lemma_index(i);
            }
        }
        assert(new_g.adj() =~= old_g.adj());
    }

    /// Marks node `i` reached.
    fn mark(&mut self, i: usize)
        requires
            old(self).wf(),
            i < old(self).ids@.len(),
        ensures
            final(self).wf(),
            final(self).adj() == old(self).adj(),
            final(self).ids() == old(self).ids(),
            final(self).visited() == old(self).visited().insert(old(self).ids@[i as int]),
            final(self).finished() == old(self).finished(),
            final(self).temp_set@ == old(self).temp_set@,
    {
        let ghost old_g = *self;
        self.nodes[i].visited = true;
        proof {
            Graph::lemma_flags(&old_g, self);
            let n = old_g.ids@[i as int];
            assert forall|x: u32| self.visited().contains(x) == old_g.visited().insert(n).contains(x) by {
                if self.visited().contains(x) && x != n {
                    let j = choose|j: int| 0 <= j < self.ids@.len() && self.ids@[j] == x && self.nodes@[j].is_visited();
                    assert(j != i);
                    assert(old_g.nodes@[j].is_visited());
                }
                if x == n {
                    assert(self.nodes@[i as int].is_visited());
                }
                if old_g.visited().contains(x) {
                    let j = choose|j: int| 0 <= j < old_g.ids@.len() && old_g.ids@[j] == x && old_g.nodes@[j].is_visited();
                    if j != i {
                        assert(self.nodes@[j] == old_g.nodes@[j]);
                    }
                }
            }
            assert(self.visited() =~= old_g.visited().insert(n));
        }
    }

    /// Marks every node not reached.
    fn clear_visited(&mut self)
        requires
            old(self).wf(),
        ensures
            final(self).wf(),
            final(self).adj() == old(self).adj(),
            final(self).ids() == old(self).ids(),
            final(self).visited() == Set::<u32>::empty(),
            final(self).finished() == old(self).finished(),
            final(self).temp_set@ == old(self).temp_set@,
    {
        let ghost old_g = *self;
        let mut i: usize = 0;
        while i < self.nodes.len()
            invariant
                i <= self.nodes@.len(),
                self.ids@ == old_g.ids@,
                self.temp@ == old_g.temp@,
                self.temp_set@ == old_g.temp_set@,
                self.nodes@.len() == old_g.nodes@.len(),
                forall|j: int| 0 <= j < self.nodes@.len() ==> (#[trigger] self.nodes@[j]).edges() == old_g.nodes@[j].edges(),
                forall|j: int| 0 <= j < i ==> !(#[trigger] self.nodes@[j]).is_visited(),
            decreases self.nodes@.len() - i,
        {
            self.nodes[i].visited = false;
            i = i + 1;
        }
        proof {
            Graph::lemma_flags(&old_g, self);
            assert forall|x: u32| !self.visited().contains(x) by {
                if self.visited().contains(x) {
                    let j = choose|j: int| 0 <= j < self.ids@.len() && self.ids@[j] == x && self.nodes@[j].is_visited();
                }
            }
            assert(self.visited() =~= Set::<u32>::empty());
        }
    }

    /// Depth-first search from `rule_num`, in increasing order of edges, through nodes not
    /// reached yet; each node is appended to the finished nodes once all its edges are done.
    pub fn dfs(&mut self, rule_num: u32)
        requires
            old(self).wf(),
        ensures
            final(self).wf(),
            final(self).adj() == old(self).adj(),
            final(self).ids() == old(self).ids(),
            final(self).collected() == old(self).collected(),
            final(self).visited() == dfs_visit(old(self).adj(), old(self).visited(), rule_num, unvisited(old(self).adj(), old(self).visited())).0,
            final(self).finished() == old(self).finished() + dfs_visit(
                old(self).adj(),
                old(self).visited(),
                rule_num,
                unvisited(old(self).adj(), old(self).visited()),
            ).1,
    {
        self.dfs_rec(rule_num, Ghost(unvisited(self.adj(), self.visited())), false)
    }

    /// Depth-first search from `rule_num` through nodes not reached yet, adding each node it
    /// reaches to the collected nodes.
    pub fn dfs_collect(&mut self, rule_num: u32)
        requires
            old(self).wf(),
        ensures
            final(self).wf(),
            final(self).adj() == old(self).adj(),
            final(self).ids() == old(self).ids(),
            final(self).finished() == old(self).finished(),
            final(self).visited() == dfs_visit(old(self).adj(), old(self).visited(), rule_num, unvisited(old(self).adj(), old(self).visited())).0,
            final(self).collected() == old(self).collected().union(final(self).visited().difference(old(self).visited())),
    {
        self.dfs_rec(rule_num, Ghost(unvisited(self.adj(), self.visited())), true)
    }

    fn dfs_rec(&mut self, rule_num: u32, Ghost(fuel): Ghost<nat>, collect: bool)
        requires
            old(self).wf(),
            fuel >= unvisited(old(self).adj(), old(self).visited()),
        ensures
            final(self).wf(),
            final(self).adj() == old(self).adj(),
            final(self).ids() == old(self).ids(),
            old(self).visited().subset_of(final(self).visited()),
            final(self).visited() == dfs_visit(old(self).adj(), old(self).visited(), rule_num, fuel).0,
            collect ==> final(self).finished() == old(self).finished(),
            collect ==> final(self).collected() == old(self).collected().union(
                final(self).visited().difference(old(self).visited()),
            ),
            !collect ==> final(self).finished() == old(self).finished() + dfs_visit(
                old(self).adj(),
                old(self).visited(),
                rule_num,
                fuel,
            ).1,
            !collect ==> final(self).temp_set@ == old(self).temp_set@,
        decreases fuel,
    {
        let ghost adj = self.adj();
        let ghost vis0 = self.visited();
        let ghost fin0 = self.finished();
        let ghost col0 = self.collected();
        proof {
            self.lemma_domain();
        }
        let i = match self.find_node(rule_num) {
            None => {
                assert(self.collected().union(self.visited().difference(vis0)) =~= col0);
                return;
            },
            Some(i) => i,
        };
        if self.nodes[i].visited {
            assert(self.collected().union(self.visited().difference(vis0)) =~= col0);
            assert(self.finished() =~= fin0 + Seq::<u32>::empty());
            return;
        }
        proof {
            assert(adj.dom().difference(vis0).contains(rule_num));
            assert(adj.dom().difference(vis0.insert(rule_num)) =~= adj.dom().difference(vis0).remove(rule_num));
            vstd::set::axiom_set_remove_len(adj.dom().difference(vis0), rule_num);
        }
        self.mark(i);
        if collect {
            if !crate::graph::contains_id(&self.temp_set, rule_num) {
                self.temp_set.push(rule_num);
                proof {
                    crate::relation::lemma_push_to_set(old(self).temp_set@, rule_num);
                }
            } else {
                assert(self.temp_set@.to_set().insert(rule_num) =~= self.temp_set@.to_set());
            }
        }
        assert(self.wf());
        let ghost vis1 = self.visited();
        let ghost fin1 = self.finished();
        assert(fuel >= 1);
        let ghost f = (fuel - 1) as nat;
        let neighbors = copy_ids(&self.nodes[i].adjacent_nodes);
        let ghost nbrs = neighbors@;
        assert(nbrs == adj[rule_num]);
        let mut k: usize = 0;
        while k < neighbors.len()
            invariant
                k <= neighbors.len(),
                nbrs == neighbors@,
                self.wf(),
                self.adj() == adj,
                self.ids() == old(self).ids(),
                vis1.subset_of(self.visited()),
                vis0.subset_of(vis1),
                f >= unvisited(adj, vis1),
                f + 1 == fuel,
                adj.dom().finite(),
                dfs_neighbors(adj, vis1, nbrs, 0, f).0 == dfs_neighbors(adj, self.visited(), nbrs, k as int, f).0,
                collect ==> self.finished() == fin0,
                collect ==> self.collected() == col0.union(self.visited().difference(vis0)),
                !collect ==> dfs_neighbors(adj, vis1, nbrs, 0, f).1 == self.finished().skip(fin1.len() as int)
                    + dfs_neighbors(adj, self.visited(), nbrs, k as int, f).1,
                !collect ==> self.finished().len() >= fin1.len() && self.finished().take(fin1.len() as int) == fin1,
                !collect ==> self.temp_set@ == old(self).temp_set@,
                fin1 == fin0,
            decreases neighbors.len() - k,
        {
            let item = neighbors[k];
            let ghost visk = self.visited();
            let ghost fink = self.finished();
            let ghost colk = self.collected();
            proof {
                vstd::set_lib::lemma_len_subset(adj.dom().difference(visk), adj.dom().difference(vis1));
            }
            match self.find_node(item) {
                Some(j) => {
                    if !self.nodes[j].visited {
                        self.dfs_rec(item, Ghost(f), collect);
                    }
                },
                None => {},
            }
            proof {
                let a = dfs_visit(adj, visk, item, f);
                assert(self.visited() == a.0);
                if collect {
                    assert(self.collected() =~= col0.union(self.visited().difference(vis0)));
                } else {
                    assert(self.finished() == fink + a.1);
                    assert(self.finished().skip(fin1.len() as int) =~= fink.skip(fin1.len() as int) + a.1);
                    assert(self.finished().take(fin1.len() as int) =~= fink.take(fin1.len() as int));
                }
            }
            k = k + 1;
        }
        if !collect {
            let ghost fin2 = self.finished();
            self.temp.push(rule_num);
            assert(self.finished() == fin2.push(rule_num));
            proof {
                assert(fin2 =~= fin1 + fin2.skip(fin1.len() as int));
                assert(self.finished() =~= fin0 + (fin2.skip(fin1.len() as int) + seq![rule_num]));
            }
        }
    }

    /// Depth-first searches from every node not reached, in increasing order of ids, after
    /// clearing every mark; gives all the finished nodes so far.
    pub fn dfs_forest(&mut self) -> (r: Vec<u32>)
        requires
            old(self).wf(),
        ensures
            final(self).wf(),
            final(self).adj() == old(self).adj(),
            final(self).ids() == old(self).ids(),
            final(self).collected() == old(self).collected(),
            final(self).visited() == forest_from(old(self).adj(), old(self).ids(), 0, Set::empty()).0,
            final(self).finished() == old(self).finished() + forest_from(old(self).adj(), old(self).ids(), 0, Set::empty()).1,
            r@ == final(self).finished(),
    {
        let ghost adj = self.adj();
        let ghost ids = self.ids();
        let ghost fin0 = self.finished();
        let ghost col0 = self.collected();
        self.clear_visited();
        let keys = copy_ids(&self.ids);
        let mut k: usize = 0;
        assert(self.finished() =~= fin0 + Seq::<u32>::empty());
        while k < keys.len()
            invariant
                k <= keys.len(),
                keys@ == ids,
                self.wf(),
                self.adj() == adj,
                self.ids() == ids,
                self.collected() == col0,
                self.finished().len() >= fin0.len(),
                self.finished().take(fin0.len() as int) == fin0,
                forest_from(adj, ids, 0, Set::empty()).0 == forest_from(adj, ids, k as int, self.visited()).0,
                forest_from(adj, ids, 0, Set::empty()).1 == self.finished().skip(fin0.len() as int) + forest_from(
                    adj,
                    ids,
                    k as int,
                    self.visited(),
                ).1,
            decreases keys.len() - k,
        {
            let key = keys[k];
            let ghost visk = self.visited();
            let ghost fink = self.finished();
            match self.find_node(key) {
                Some(j) => {
                    if !self.nodes[j].visited {
                        self.dfs(key);
                    }
                },
                None => {},
            }
            proof {
                let a = dfs_visit(adj, visk, key, unvisited(adj, visk));
                assert(self.visited() == a.0);
                assert(self.finished() == fink + a.1);
                assert(self.finished().skip(fin0.len() as int) =~= fink.skip(fin0.len() as int) + a.1);
                assert(self.finished().take(fin0.len() as int) =~= fink.take(fin0.len() as int));
            }
            k = k + 1;
        }
        proof {
            assert(self.finished() =~= fin0 + self.finished().skip(fin0.len() as int));
        }
        copy_ids(&self.temp)
    }

    /// Collects components: takes the ids of `eval_order` from its end; from each node not
    /// reached yet, a search gathers a component, which closes with the nodes it reached.
    pub fn dfs_forest_og(&mut self, eval_order: Vec<u32>) -> (r: Vec<Vec<u32>>)
        requires
            old(self).wf(),
        ensures
            final(self).wf(),
            final(self).adj() == old(self).adj(),
            final(self).ids() == old(self).ids(),
            final(self).finished() == old(self).finished(),
            components_view(r@) == components(old(self).adj(), eval_order@, Set::empty(), old(self).collected()).1,
            final(self).visited() == components(old(self).adj(), eval_order@, Set::empty(), old(self).collected()).0,
            final(self).collected() == components(old(self).adj(), eval_order@, Set::empty(), old(self).collected()).2,
            forall|i: int| 0 <= i < r@.len() ==> (#[trigger] r@[i])@.no_duplicates(),
    {
        let ghost adj = self.adj();
        let ghost order0 = eval_order@;
        let ghost total = components(adj, order0, Set::empty(), self.collected());
        self.clear_visited();
        let mut eval_order = eval_order;
        let mut sccs: Vec<Vec<u32>> = Vec::new();
        assert(components_view(sccs@) =~= Seq::<Set<u32>>::empty());
        assert(total.1 =~= components_view(sccs@) + total.1);
        while eval_order.len() > 0
            invariant
                self.wf(),
                self.adj() == adj,
                self.ids() == old(self).ids(),
                self.finished() == old(self).finished(),
                total.0 == components(adj, eval_order@, self.visited(), self.collected()).0,
                total.2 == components(adj, eval_order@, self.visited(), self.collected()).2,
                total.1 == components_view(sccs@) + components(adj, eval_order@, self.visited(), self.collected()).1,
                forall|i: int| 0 <= i < sccs@.len() ==> (#[trigger] sccs@[i])@.no_duplicates(),
            decreases eval_order.len(),
        {
            let ghost ord = eval_order@;
            let ghost visk = self.visited();
            let ghost colk = self.collected();
            let popped = eval_order.pop();
            let top_node_id = match popped {
                Some(t) => t,
                None => 0,
            };
            assert(eval_order@ == ord.drop_last());
            assert(top_node_id == ord.last());
            match self.find_node(top_node_id) {
                Some(j) => {
                    if !self.nodes[j].visited {
                        self.dfs_collect(top_node_id);
                        let c = copy_ids(&self.temp_set);
                        let ghost before = sccs@;
                        sccs.push(c);
                        assert(components_view(sccs@) =~= components_view(before).push(c@.to_set()));
                        self.temp_set.clear();
                        assert(self.collected() =~= Set::<u32>::empty());
                        assert(self.wf());
                        proof {
                            let rest = components(adj, eval_order@, self.visited(), Set::empty());
                            assert(components(adj, ord, visk, colk).1 == seq![c@.to_set()] + rest.1);
                            assert(components_view(sccs@) + rest.1 =~= components_view(before) + (seq![c@.to_set()] + rest.1));
                        }
                    }
                },
                None => {},
            }
        }
        proof {
            assert(eval_order@.len() == 0);
            assert(components_view(sccs@) + Seq::<Set<u32>>::empty() =~= components_view(sccs@));
        }
        sccs
    }

    /// Whether the node has an edge to itself.
    pub fn dependent(&mut self, node_id: u32) -> (r: bool)
        requires
            old(self).wf(),
            old(self).adj().contains_key(node_id),
        ensures
            *final(self) == *old(self),
            r == old(self).adj()[node_id].contains(node_id),
    {
        match self.find_node(node_id) {
            Some(i) => contains_id(&self.nodes[i].adjacent_nodes, node_id),
            None => false,
        }
    }

    /// The lines of the graph's text: `R<id>:R<a>,R<b>,...` for each node, in increasing order.
    pub fn to_lines(&self) -> (r: Vec<String>)
        requires
            self.wf(),
        ensures
            r.deep_view() == self.ids().map_values(|id: u32| graph_line(id, self.adj()[id])),
    {
        let mut lines: Vec<String> = Vec::new();
        let mut i: usize = 0;
        while i < self.ids.len()
            invariant
                i <= self.ids@.len(),
                self.wf(),
                lines.deep_view() =~= self.ids().take(i as int).map_values(|id: u32| graph_line(id, self.adj()[id])),
            decreases self.ids@.len() - i,
        {
            proof {
                self.lemma_index(i as int);
            }
            let mut line = String::from_str("R");
            push_decimal(&mut line, self.ids[i] as u64);
            line.append(":");
            let e = self.nodes[i].to_string();
            line.append(e.as_str());
            let ghost before = lines.deep_view();
            lines.push(line);
            assert(lines.deep_view() =~= before.push(graph_line(self.ids@[i as int], self.adj()[self.ids@[i as int]])));
            i = i + 1;
        }
        assert(self.ids().take(self.ids@.len() as int) =~= self.ids());
        lines
    }
}

/// The line of a node: `R<id>:` and its edges.
pub open spec fn graph_line(id: u32, edges: Seq<u32>) -> Seq<char> {
    rule_label(id) + ":"@ + edges_text(edges)
}

/// Depth-first searches from `ids[k..]` in turn, each from the nodes reached so far.
pub open spec fn forest_from(adj: Map<u32, Seq<u32>>, ids: Seq<u32>, k: int, vis: Set<u32>) -> (Set<u32>, Seq<u32>)
    decreases ids.len() - k,
{
    if k < 0 || k >= ids.len() {
        (vis, Seq::empty())
    } else {
        let a = dfs_visit(adj, vis, ids[k], unvisited(adj, vis));
        let b = forest_from(adj, ids, k + 1, a.0);
        (b.0, a.1 + b.1)
    }
}

/// The components gathered from `order`, taken from its end: from each node not reached yet,
/// a search gathers the nodes it reaches; the first component also holds the nodes collected
/// before (`pending`). Gives the nodes reached, the components, and the nodes left collected.
pub open spec fn components(adj: Map<u32, Seq<u32>>, order: Seq<u32>, vis: Set<u32>, pending: Set<u32>) -> (Set<u32>, Seq<Set<u32>>, Set<u32>)
    decreases order.len(),
{
    if order.len() == 0 {
        (vis, Seq::empty(), pending)
    } else {
        let n = order.last();
        let rest = order.drop_last();
        if adj.contains_key(n) && !vis.contains(n) {
            let v2 = dfs_visit(adj, vis, n, unvisited(adj, vis)).0;
            let c = pending.union(v2.difference(vis));
            let r = components(adj, rest, v2, Set::empty());
            (r.0, seq![c] + r.1, r.2)
        } else {
            components(adj, rest, vis, pending)
        }
    }
}

/// The sets of nodes of a list of components.
pub open spec fn components_view(v: Seq<Vec<u32>>) -> Seq<Set<u32>> {
    v.map_values(|c: Vec<u32>| c@.to_set())
}

/// The number of nodes a search has not reached.
pub open spec fn unvisited(adj: Map<u32, Seq<u32>>, vis: Set<u32>) -> nat {
    adj.dom().difference(vis).len()
}

/// Depth-first search from `n` through nodes outside `vis`: the nodes reached by the end,
/// and the nodes in the order they finish. `fuel` bounds the depth; the search never runs out
/// of it when it is at least the number of nodes not reached.
pub open spec fn dfs_visit(adj: Map<u32, Seq<u32>>, vis: Set<u32>, n: u32, fuel: nat) -> (Set<u32>, Seq<u32>)
    decreases fuel, 0nat, 0int,
{
    if fuel == 0 || !adj.contains_key(n) || vis.contains(n) {
        (vis, Seq::empty())
    } else {
        let r = dfs_neighbors(adj, vis.insert(n), adj[n], 0, (fuel - 1) as nat);
        (r.0, r.1.push(n))
    }
}

/// Depth-first searches from the edges `nbrs[k..]` in turn.
pub open spec fn dfs_neighbors(adj: Map<u32, Seq<u32>>, vis: Set<u32>, nbrs: Seq<u32>, k: int, fuel: nat) -> (Set<u32>, Seq<u32>)
    decreases fuel, 1nat, nbrs.len() - k,
{
    if k < 0 || k >= nbrs.len() {
        (vis, Seq::empty())
    } else {
        let a = dfs_visit(adj, vis, nbrs[k], fuel);
        let b = dfs_neighbors(adj, a.0, nbrs, k + 1, fuel);
        (b.0, a.1 + b.1)
    }
}

fn contains_id(v: &Vec<u32>, x: u32) -> (r: bool)
    ensures
        r == v@.contains(x),
{
    let mut i: usize = 0;
    while i < v.len()
        invariant
            i <= v.len(),
            forall|j: int| 0 <= j < i ==> v@[j] != x,
        decreases v.len() - i,
    {
        if v[i] == x {
            return true;
        }
        i = i + 1;
    }
    false
}

fn copy_ids(v: &Vec<u32>) -> (r: Vec<u32>)
    ensures
        r@ == v@,
{
    let mut r: Vec<u32> = Vec::new();
    let mut i: usize = 0;
    while i < v.len()
        invariant
            i <= v.len(),
            r@ == v@.take(i as int),
        decreases v.len() - i,
    {
        r.push(v[i]);
        assert(v@.take(i + 1) =~= v@.take(i as int).push(v@[i as int]));
        i = i + 1;
    }
    assert(v@.take(v.len() as int) =~= v@);
    r
}

/// A search keeps the nodes reached before, reaches only nodes of the graph, and reaches its
/// start when it is a node not reached yet.
pub proof fn lemma_dfs_visit_within(adj: Map<u32, Seq<u32>>, vis: Set<u32>, n: u32, fuel: nat)
    ensures
        vis.subset_of(dfs_visit(adj, vis, n, fuel).0),
        forall|x: u32| #[trigger] dfs_visit(adj, vis, n, fuel).0.contains(x) ==> vis.contains(x) || adj.contains_key(x),
        fuel > 0 && adj.contains_key(n) && !vis.contains(n) ==> dfs_visit(adj, vis, n, fuel).0.contains(n),
    decreases fuel, 0nat, 0int,
{
    if fuel == 0 || !adj.contains_key(n) || vis.contains(n) {
    } else {
        lemma_dfs_neighbors_within(adj, vis.insert(n), adj[n], 0, (fuel - 1) as nat);
    }
}

/// Searches from a list of edges keep the nodes reached before and reach only nodes.
pub proof fn lemma_dfs_neighbors_within(adj: Map<u32, Seq<u32>>, vis: Set<u32>, nbrs: Seq<u32>, k: int, fuel: nat)
    ensures
        vis.subset_of(dfs_neighbors(adj, vis, nbrs, k, fuel).0),
        forall|x: u32| #[trigger] dfs_neighbors(adj, vis, nbrs, k, fuel).0.contains(x) ==> vis.contains(x) || adj.contains_key(x),
    decreases fuel, 1nat, nbrs.len() - k,
{
    if k < 0 || k >= nbrs.len() {
    } else {
        lemma_dfs_visit_within(adj, vis, nbrs[k], fuel);
        let a = dfs_visit(adj, vis, nbrs[k], fuel);
        lemma_dfs_neighbors_within(adj, a.0, nbrs, k + 1, fuel);
    }
}

/// The set holds a node.
pub open spec fn has_node(s: Set<u32>) -> bool {
    exists|x: u32| s.contains(x)
}

/// Every component gathered holds a node, and only nodes of the graph or nodes collected
/// before.
pub proof fn lemma_components_within(adj: Map<u32, Seq<u32>>, order: Seq<u32>, vis: Set<u32>, pending: Set<u32>)
    requires
        adj.dom().finite(),
    ensures
        forall|i: int|
            0 <= i < components(adj, order, vis, pending).1.len() ==> has_node(
                #[trigger] components(adj, order, vis, pending).1[i],
            ),
        forall|i: int, x: u32|
            0 <= i < components(adj, order, vis, pending).1.len() && #[trigger] components(adj, order, vis, pending).1[i].contains(x)
                ==> pending.contains(x) || adj.contains_key(x),
    decreases order.len(),
{
    if order.len() > 0 {
        let n = order.last();
        let rest = order.drop_last();
        if adj.contains_key(n) && !vis.contains(n) {
            let fuel = unvisited(adj, vis);
            assert(adj.dom().difference(vis).contains(n));
            let v2 = dfs_visit(adj, vis, n, fuel).0;
            lemma_dfs_visit_within(adj, vis, n, fuel);
            let c = pending.union(v2.difference(vis));
            assert(c.contains(n));
            lemma_components_within(adj, rest, v2, Set::empty());
            let r = components(adj, rest, v2, Set::empty());
            assert(components(adj, order, vis, pending).1 == seq![c] + r.1);
            assert forall|i: int| 0 <= i < components(adj, order, vis, pending).1.len() implies has_node(
                #[trigger] components(adj, order, vis, pending).1[i],
            ) by {
                if i == 0 {
                    assert(components(adj, order, vis, pending).1[0].contains(n));
                } else {
                    assert(components(adj, order, vis, pending).1[i] == r.1[i - 1]);
                }
            }
            assert forall|i: int, x: u32|
                0 <= i < components(adj, order, vis, pending).1.len() && #[trigger] components(
                    adj,
                    order,
                    vis,
                    pending,
                ).1[i].contains(x) implies pending.contains(x) || adj.contains_key(x) by {
                if i > 0 {
                    assert(components(adj, order, vis, pending).1[i] == r.1[i - 1]);
                    assert(r.1[i - 1].contains(x));
                } else {
                    assert(c.contains(x));
                }
            }
        } else {
            lemma_components_within(adj, rest, vis, pending);
            assert(components(adj, order, vis, pending) == components(adj, rest, vis, pending));
        }
    }
}

/// Reaching more nodes leaves fewer nodes to reach.
pub proof fn lemma_unvisited_mono(adj: Map<u32, Seq<u32>>, v1: Set<u32>, v2: Set<u32>)
    requires
        adj.dom().finite(),
        v1.subset_of(v2),
    ensures
        unvisited(adj, v2) <= unvisited(adj, v1),
{
    assert(adj.dom().difference(v2).subset_of(adj.dom().difference(v1)));
    vstd::set_lib::lemma_len_subset(adj.dom().difference(v2), adj.dom().difference(v1));
}

/// Reaching one more node of the graph leaves one node fewer to reach.
pub proof fn lemma_unvisited_insert(adj: Map<u32, Seq<u32>>, v: Set<u32>, n: u32)
    requires
        adj.dom().finite(),
        adj.contains_key(n),
        !v.contains(n),
    ensures
        unvisited(adj, v.insert(n)) + 1 == unvisited(adj, v),
{
    assert(adj.dom().difference(v.insert(n)) =~= adj.dom().difference(v).remove(n));
    assert(adj.dom().difference(v).contains(n));
}

/// With enough fuel, a search finishes each node it newly reaches, once.
pub proof fn lemma_dfs_visit_list(adj: Map<u32, Seq<u32>>, vis: Set<u32>, n: u32, fuel: nat)
    requires
        adj.dom().finite(),
        fuel >= unvisited(adj, vis),
    ensures
        dfs_visit(adj, vis, n, fuel).1.to_set() == dfs_visit(adj, vis, n, fuel).0.difference(vis),
        dfs_visit(adj, vis, n, fuel).1.no_duplicates(),
    decreases fuel, 0nat, 0int,
{
    let r = dfs_visit(adj, vis, n, fuel);
    if fuel == 0 || !adj.contains_key(n) || vis.contains(n) {
        assert(r.1.to_set() =~= r.0.difference(vis));
    } else {
        let v1 = vis.insert(n);
        lemma_unvisited_insert(adj, vis, n);
        lemma_dfs_neighbors_list(adj, v1, adj[n], 0, (fuel - 1) as nat);
        lemma_dfs_neighbors_within(adj, v1, adj[n], 0, (fuel - 1) as nat);
        let q = dfs_neighbors(adj, v1, adj[n], 0, (fuel - 1) as nat);
        assert(!q.1.contains(n)) by {
            if q.1.contains(n) {
                assert(q.1.to_set().contains(n));
            }
        }
        q.1.lemma_push_to_set_commute(n);
        assert(q.0.contains(n));
        assert(r.1.to_set() =~= r.0.difference(vis));
        assert forall|i: int, j: int| 0 <= i < r.1.len() && 0 <= j < r.1.len() && i != j implies r.1[i] != r.1[j] by {
            if i == q.1.len() {
                assert(q.1.contains(r.1[j]));
            } else if j == q.1.len() {
                assert(q.1.contains(r.1[i]));
            }
        }
    }
}

/// With enough fuel, searches from a list of edges finish each node they newly reach, once.
pub proof fn lemma_dfs_neighbors_list(adj: Map<u32, Seq<u32>>, vis: Set<u32>, nbrs: Seq<u32>, k: int, fuel: nat)
    requires
        adj.dom().finite(),
        fuel >= unvisited(adj, vis),
    ensures
        dfs_neighbors(adj, vis, nbrs, k, fuel).1.to_set() == dfs_neighbors(adj, vis, nbrs, k, fuel).0.difference(vis),
        dfs_neighbors(adj, vis, nbrs, k, fuel).1.no_duplicates(),
    decreases fuel, 1nat, nbrs.len() - k,
{
    let r = dfs_neighbors(adj, vis, nbrs, k, fuel);
    if k < 0 || k >= nbrs.len() {
        assert(r.1.to_set() =~= r.0.difference(vis));
    } else {
        lemma_dfs_visit_list(adj, vis, nbrs[k], fuel);
        lemma_dfs_visit_within(adj, vis, nbrs[k], fuel);
        let a = dfs_visit(adj, vis, nbrs[k], fuel);
        lemma_unvisited_mono(adj, vis, a.0);
        lemma_dfs_neighbors_list(adj, a.0, nbrs, k + 1, fuel);
        lemma_dfs_neighbors_within(adj, a.0, nbrs, k + 1, fuel);
        let b = dfs_neighbors(adj, a.0, nbrs, k + 1, fuel);
        assert forall|i: int, j: int| 0 <= i < a.1.len() && 0 <= j < b.1.len() implies a.1[i] != b.1[j] by {
            assert(a.1.to_set().contains(a.1[i]));
            assert(b.1.to_set().contains(b.1[j]));
        }
        vstd::seq_lib::lemma_no_dup_in_concat(a.1, b.1);
        assert forall|x: u32| (a.1 + b.1).to_set().contains(x) <==> r.0.difference(vis).contains(x) by {
            if (a.1 + b.1).contains(x) {
                let i = choose|i: int| 0 <= i < (a.1 + b.1).len() && (a.1 + b.1)[i] == x;
                if i < a.1.len() {
                    assert(a.1.to_set().contains(x));
                } else {
                    assert(b.1[i - a.1.len()] == x);
                    assert(b.1.to_set().contains(x));
                }
            }
            if r.0.difference(vis).contains(x) {
                if a.0.contains(x) {
                    assert(a.1.to_set().contains(x));
                    let i = choose|i: int| 0 <= i < a.1.len() && a.1[i] == x;
                    assert((a.1 + b.1)[i] == x);
                } else {
                    assert(b.1.to_set().contains(x));
                    let i = choose|i: int| 0 <= i < b.1.len() && b.1[i] == x;
                    assert((a.1 + b.1)[a.1.len() + i] == x);
                }
            }
        }
        assert(r.1.to_set() =~= r.0.difference(vis));
    }
}

/// The searches of a forest finish each node they reach once, and reach every node of `ids`
/// from position `k` on.
pub proof fn lemma_forest_list(adj: Map<u32, Seq<u32>>, ids: Seq<u32>, k: int, vis: Set<u32>)
    requires
        adj.dom().finite(),
        0 <= k,
    ensures
        forest_from(adj, ids, k, vis).1.to_set() == forest_from(adj, ids, k, vis).0.difference(vis),
        forest_from(adj, ids, k, vis).1.no_duplicates(),
        vis.subset_of(forest_from(adj, ids, k, vis).0),
        forall|j: int| k <= j < ids.len() && adj.contains_key(#[trigger] ids[j]) ==> forest_from(adj, ids, k, vis).0.contains(ids[j]),
    decreases ids.len() - k,
{
    let r = forest_from(adj, ids, k, vis);
    if k >= ids.len() {
        assert(r.1.to_set() =~= r.0.difference(vis));
    } else {
        let fuel = unvisited(adj, vis);
        lemma_dfs_visit_list(adj, vis, ids[k], fuel);
        lemma_dfs_visit_within(adj, vis, ids[k], fuel);
        let a = dfs_visit(adj, vis, ids[k], fuel);
        lemma_forest_list(adj, ids, k + 1, a.0);
        let b = forest_from(adj, ids, k + 1, a.0);
        if adj.contains_key(ids[k]) && !vis.contains(ids[k]) {
            assert(adj.dom().difference(vis).contains(ids[k]));
        }
        assert forall|i: int, j: int| 0 <= i < a.1.len() && 0 <= j < b.1.len() implies a.1[i] != b.1[j] by {
            assert(a.1.to_set().contains(a.1[i]));
            assert(b.1.to_set().contains(b.1[j]));
        }
        vstd::seq_lib::lemma_no_dup_in_concat(a.1, b.1);
        assert forall|x: u32| (a.1 + b.1).to_set().contains(x) <==> r.0.difference(vis).contains(x) by {
            if (a.1 + b.1).contains(x) {
                let i = choose|i: int| 0 <= i < (a.1 + b.1).len() && (a.1 + b.1)[i] == x;
                if i < a.1.len() {
                    assert(a.1.to_set().contains(x));
                } else {
                    assert(b.1[i - a.1.len()] == x);
                    assert(b.1.to_set().contains(x));
                }
            }
            if r.0.difference(vis).contains(x) {
                if a.0.contains(x) {
                    assert(a.1.to_set().contains(x));
                    let i = choose|i: int| 0 <= i < a.1.len() && a.1[i] == x;
                    assert((a.1 + b.1)[i] == x);
                } else {
                    assert(b.1.to_set().contains(x));
                    let i = choose|i: int| 0 <= i < b.1.len() && b.1[i] == x;
                    assert((a.1 + b.1)[a.1.len() + i] == x);
                }
            }
        }
        assert(r.1.to_set() =~= r.0.difference(vis));
    }
}

/// Some component holds `x`.
pub open spec fn in_some(cs: Seq<Set<u32>>, x: u32) -> bool {
    exists|i: int| 0 <= i < cs.len() && #[trigger] cs[i].contains(x)
}

/// The components gathered from `order` with nothing collected before are disjoint from each
/// other and from the nodes reached before, and hold every node of `order` not reached before.
pub proof fn lemma_components_partition(adj: Map<u32, Seq<u32>>, order: Seq<u32>, vis: Set<u32>)
    requires
        adj.dom().finite(),
    ensures
        vis.subset_of(components(adj, order, vis, Set::empty()).0),
        forall|i: int, x: u32|
            0 <= i < components(adj, order, vis, Set::empty()).1.len() && #[trigger] components(adj, order, vis, Set::empty()).1[i].contains(x)
                ==> !vis.contains(x),
        forall|i: int, j: int, x: u32|
            0 <= i < j < components(adj, order, vis, Set::empty()).1.len() && #[trigger] components(adj, order, vis, Set::empty()).1[i].contains(x)
                ==> !#[trigger] components(adj, order, vis, Set::empty()).1[j].contains(x),
        forall|x: u32|
            order.contains(x) && adj.contains_key(x) && !vis.contains(x) ==> #[trigger] in_some(
                components(adj, order, vis, Set::empty()).1,
                x,
            ),
    decreases order.len(),
{
    let res = components(adj, order, vis, Set::empty());
    if order.len() > 0 {
        let n = order.last();
        let rest = order.drop_last();
        if adj.contains_key(n) && !vis.contains(n) {
            let fuel = unvisited(adj, vis);
            assert(adj.dom().difference(vis).contains(n));
            lemma_dfs_visit_within(adj, vis, n, fuel);
            let v2 = dfs_visit(adj, vis, n, fuel).0;
            let c = Set::<u32>::empty().union(v2.difference(vis));
            lemma_components_partition(adj, rest, v2);
            let r = components(adj, rest, v2, Set::empty());
            assert(res.1 == seq![c] + r.1);
            assert forall|i: int, x: u32| 0 <= i < res.1.len() && #[trigger] res.1[i].contains(x) implies !vis.contains(x) by {
                if i > 0 {
                    assert(res.1[i] == r.1[i - 1]);
                }
            }
            assert forall|i: int, j: int, x: u32|
                0 <= i < j < res.1.len() && #[trigger] res.1[i].contains(x) implies !#[trigger] res.1[j].contains(x) by {
                assert(res.1[j] == r.1[j - 1]);
                if i > 0 {
                    assert(res.1[i] == r.1[i - 1]);
                } else {
                    assert(v2.contains(x));
                }
            }
            assert forall|x: u32| order.contains(x) && adj.contains_key(x) && !vis.contains(x) implies #[trigger] in_some(res.1, x) by {
                if v2.contains(x) {
                    assert(res.1[0].contains(x));
                } else {
                    let i = choose|i: int| 0 <= i < order.len() && order[i] == x;
                    assert(i != order.len() - 1);
                    assert(rest[i] == x);
                    assert(in_some(r.1, x));
                    let m = choose|m: int| 0 <= m < r.1.len() && #[trigger] r.1[m].contains(x);
                    assert(res.1[m + 1] == r.1[m]);
                }
            }
        } else {
            lemma_components_partition(adj, rest, vis);
            assert(res == components(adj, rest, vis, Set::empty()));
            assert forall|x: u32| order.contains(x) && adj.contains_key(x) && !vis.contains(x) implies rest.contains(x) by {
                let i = choose|i: int| 0 <= i < order.len() && order[i] == x;
                assert(i != order.len() - 1);
                assert(rest[i] == x);
            }
        }
    }
}

} // verus!
