//! A directed graph of package families, with cycle detection and an
//! ordering that puts dependencies before the packages that need them.
use vstd::prelude::*;
use crate::text::{str_eq, chars_of};
use crate::order::{lex, lex_fn, seq_dom, all_in, lemma_lex_total_order};
use crate::version_order::{code_compare, any_char_dom, lemma_code_order};

verus! {

/// The node names are pairwise distinct.
pub open spec fn distinct_names(names: Seq<Seq<char>>) -> bool {
    forall|i: int, j: int| 0 <= i < j < names.len() ==> #[trigger] names[i] != #[trigger] names[j]
}

/// Successor lists of the right length, holding valid, distinct indices.
pub open spec fn succ_wf(succ: Seq<Seq<usize>>, n: nat) -> bool {
    &&& succ.len() == n
    &&& forall|i: int, k: int| 0 <= i < n && 0 <= k < succ[i].len() ==> (#[trigger] succ[i][k]) < n
    &&& forall|i: int, k: int, l: int|
        0 <= i < n && 0 <= k < l < succ[i].len() ==> #[trigger] succ[i][k] != #[trigger] succ[i][l]
}

/// The texts of a list of strings.
pub open spec fn names_view(v: Seq<String>) -> Seq<Seq<char>> {
    v.map_values(|s: String| s@)
}

/// The successor lists of a list of vectors.
pub open spec fn succ_view(v: Seq<Vec<usize>>) -> Seq<Seq<usize>> {
    v.map_values(|s: Vec<usize>| s@)
}

/// The model of a graph: node names, and for each node the indices of its
/// direct successors.
pub struct GraphModel {
    pub names: Seq<Seq<char>>,
    pub succ: Seq<Seq<usize>>,
}

impl GraphModel {
    /// The node named `n` is in the graph.
    pub open spec fn has_node(self, n: Seq<char>) -> bool {
        self.names.contains(n)
    }

    /// There is an edge from the node named `a` to the node named `b`.
    pub open spec fn has_edge(self, a: Seq<char>, b: Seq<char>) -> bool {
        exists|i: int, k: int| #[trigger] self.edge_at(i, k) && self.names[i] == a && self.names[self.succ[i][k] as int] == b
    }

    /// `k` is a valid position in the successor list of node `i`.
    pub open spec fn edge_at(self, i: int, k: int) -> bool {
        0 <= i < self.names.len() && 0 <= k < self.succ[i].len()
    }
}

/// A directed graph keyed by package family name.
#[derive(Debug)]
pub struct DepGraph {
    nodes: Vec<String>,
    succ: Vec<Vec<usize>>,
}

impl View for DepGraph {
    type V = GraphModel;

    closed spec fn view(&self) -> GraphModel {
        GraphModel { names: names_view(self.nodes@), succ: succ_view(self.succ@) }
    }
}

/// The index of the node named `name`.
fn index_of(nodes: &Vec<String>, name: &str) -> (r: Option<usize>)
    ensures
        match r {
            Some(i) => i < nodes@.len() && nodes@[i as int]@ == name@,
            None => !names_view(nodes@).contains(name@),
        },
{
    let mut i: usize = 0;
    while i < nodes.len()
        invariant
            i <= nodes@.len(),
            forall|k: int| 0 <= k < i ==> nodes@[k]@ != name@,
        decreases nodes.len() - i,
    {
        if str_eq(nodes[i].as_str(), name) {
            return Some(i);
        }
        i = i + 1;
    }
    proof {
        if names_view(nodes@).contains(name@) {
            let k = choose|k: int| 0 <= k < names_view(nodes@).len() && names_view(nodes@)[k] == name@;
            assert(nodes@[k]@ == name@);
        }
    }
    None
}

/// The graph with one more node, without edges.
pub open spec fn push_node(g: GraphModel, x: Seq<char>) -> GraphModel {
    GraphModel { names: g.names.push(x), succ: g.succ.push(Seq::<usize>::empty()) }
}

/// Adding a node without edges keeps the successors of every node.
proof fn lemma_push_node_successors(g: GraphModel, x: Seq<char>)
    requires
        !g.has_node(x),
        graph_wf(g),
    ensures
        forall|n: Seq<char>| #[trigger] push_node(g, x).successors(n) == g.successors(n),
{
    let h = push_node(g, x);
    assert(distinct_names(h.names)) by {
        assert forall|i: int, j: int| 0 <= i < j < h.names.len() implies #[trigger] h.names[i] != #[trigger] h.names[j] by {
            if j == g.names.len() {
                assert(h.names[i] == g.names[i]);
                assert(g.names.contains(g.names[i]));
            } else {
                assert(h.names[i] == g.names[i] && h.names[j] == g.names[j]);
            }
        }
    }
    assert forall|n: Seq<char>| #[trigger] h.successors(n) == g.successors(n) by {
        if g.has_node(n) {
            let i = choose|i: int| 0 <= i < g.names.len() && g.names[i] == n;
            lemma_index_of(g, i);
            assert(h.names[i] == n);
            lemma_index_of(h, i);
            assert(h.succ[i] == g.succ[i]);
            assert(h.successors(n) =~= g.successors(n)) by {
                assert forall|q: int| 0 <= q < g.succ[i].len() implies h.names[#[trigger] g.succ[i][q] as int] == g.names[g.succ[i][q] as int] by {
                    assert(g.succ[i][q] < g.names.len());
                }
            }
        } else if n == x {
            let i = g.names.len() as int;
            assert(h.names[i] == x);
            lemma_index_of(h, i);
            assert(h.successors(n) =~= Seq::<Seq<char>>::empty());
        } else {
            assert(!h.has_node(n)) by {
                if h.names.contains(n) {
                    let i = choose|i: int| 0 <= i < h.names.len() && h.names[i] == n;
                    if i < g.names.len() {
                        assert(g.names[i] == n);
                    }
                }
            }
        }
    }
}

/// Adding a node without edges keeps the edges between named nodes.
proof fn lemma_push_node_edges(g: GraphModel, x: Seq<char>)
    requires
        !g.has_node(x),
        succ_wf(g.succ, g.names.len()),
    ensures
        forall|a: Seq<char>, b: Seq<char>| #[trigger] push_node(g, x).has_edge(a, b) == g.has_edge(a, b),
{
    let h = push_node(g, x);
    assert forall|a: Seq<char>, b: Seq<char>| #[trigger] h.has_edge(a, b) == g.has_edge(a, b) by {
        if h.has_edge(a, b) {
            let (i, k) = choose|i: int, k: int| #[trigger] h.edge_at(i, k) && h.names[i] == a && h.names[h.succ[i][k] as int] == b;
            assert(i < g.names.len());
            assert(h.succ[i] == g.succ[i]);
            assert(g.succ[i][k] < g.names.len());
            assert(g.edge_at(i, k));
        }
        if g.has_edge(a, b) {
            let (i, k) = choose|i: int, k: int| #[trigger] g.edge_at(i, k) && g.names[i] == a && g.names[g.succ[i][k] as int] == b;
            assert(h.succ[i] == g.succ[i]);
            assert(g.succ[i][k] < g.names.len());
            assert(h.edge_at(i, k));
        }
    }
}

impl DepGraph {
    #[verifier::type_invariant]
    spec fn inv(self) -> bool {
        &&& distinct_names(names_view(self.nodes@))
        &&& succ_wf(succ_view(self.succ@), self.nodes@.len())
    }

    /// The graph is well formed.
    pub closed spec fn wf(self) -> bool {
        self.inv()
    }

    /// An empty graph.
    pub fn new() -> (g: DepGraph)
        ensures
            g@.names.len() == 0,
            g@.succ.len() == 0,
    {
        let g = DepGraph { nodes: Vec::new(), succ: Vec::new() };
        assert(names_view(g.nodes@) =~= Seq::<Seq<char>>::empty());
        g
    }

    /// The index of the node named `name`, added with no edge when it is
    /// not in the graph.
    fn node_index(&mut self, name: &str) -> (i: usize)
        ensures
            i < final(self)@.names.len(),
            final(self)@.names[i as int] == name@,
            old(self)@.has_node(name@) ==> final(self)@ == old(self)@,
            !old(self)@.has_node(name@) ==> final(self)@.names == old(self)@.names.push(name@)
                && final(self)@.succ == old(self)@.succ.push(Seq::<usize>::empty()),
    {
        proof {
            use_type_invariant(&*self);
        }
        match index_of(&self.nodes, name) {
            Some(i) => {
                assert(names_view(self.nodes@)[i as int] == self.nodes@[i as int]@);
                i
            },
            None => {
                let ghost names0 = names_view(self.nodes@);
                let ghost succ0 = succ_view(self.succ@);
                let n = self.nodes.len();
                let mut g = DepGraph::new();
                std::mem::swap(&mut g, self);
                let DepGraph { mut nodes, mut succ } = g;
                nodes.push(name.to_owned());
                succ.push(Vec::new());
                proof {
                    assert(names_view(nodes@) =~= names0.push(name@));
                    assert(succ_view(succ@) =~= succ0.push(Seq::<usize>::empty()));
                    let nv = names_view(nodes@);
                    assert forall|i: int, j: int| 0 <= i < j < nv.len() implies #[trigger] nv[i] != #[trigger] nv[j] by {
                        if j == n {
                            assert(nv[i] == names0[i]);
                        } else {
                            assert(nv[i] == names0[i] && nv[j] == names0[j]);
                        }
                    }
                    let sv = succ_view(succ@);
                    assert forall|i: int, k: int| 0 <= i < nv.len() && 0 <= k < sv[i].len() implies (#[trigger] sv[i][k]) < nv.len() by {
                        if i < n {
                            assert(sv[i] == succ0[i]);
                        }
                    }
                    assert forall|i: int, k: int, l: int|
                        0 <= i < nv.len() && 0 <= k < l < sv[i].len() implies #[trigger] sv[i][k] != #[trigger] sv[i][l] by {
                        if i < n {
                            assert(sv[i] == succ0[i]);
                        }
                    }
                }
                *self = DepGraph { nodes, succ };
                n
            },
        }
    }

    /// Adds a directed edge `from -> to`, and both ends as nodes.
    pub fn add_edge(&mut self, from: &str, to: &str)
        ensures
            forall|n: Seq<char>|
                #[trigger] final(self)@.has_node(n) <==> old(self)@.has_node(n) || n == from@ || n == to@,
            forall|a: Seq<char>, b: Seq<char>|
                #[trigger] final(self)@.has_edge(a, b) <==> old(self)@.has_edge(a, b) || (a == from@ && b
                    == to@),
            final(self)@.successors(from@) == if old(self)@.has_edge(from@, to@) {
                old(self)@.successors(from@)
            } else {
                old(self)@.successors(from@).push(to@)
            },
            forall|n: Seq<char>| n != from@ ==> #[trigger] final(self)@.successors(n) == old(self)@.successors(n),
    {
        proof {
            use_type_invariant(&*self);
        }
        let ghost g0 = self@;
        let f = self.node_index(from);
        let ghost g1 = self@;
        proof {
            use_type_invariant(&*self);
            if !g0.has_node(from@) {
                lemma_push_node_edges(g0, from@);
                lemma_push_node_successors(g0, from@);
                assert(g1 == push_node(g0, from@));
            }
            assert(forall|n: Seq<char>| #[trigger] g1.successors(n) == g0.successors(n));
            assert forall|a: Seq<char>, b: Seq<char>| #[trigger] g1.has_edge(a, b) == g0.has_edge(a, b) by {
                if !g0.has_node(from@) {
                    assert(push_node(g0, from@).has_edge(a, b) == g0.has_edge(a, b));
                }
            }
        }
        let t = self.node_index(to);
        let ghost g2 = self@;
        proof {
            use_type_invariant(&*self);
            if !g1.has_node(to@) {
                lemma_push_node_edges(g1, to@);
                lemma_push_node_successors(g1, to@);
                assert(g2 == push_node(g1, to@));
            }
            assert(forall|n: Seq<char>| #[trigger] g2.successors(n) == g0.successors(n));
            assert forall|a: Seq<char>, b: Seq<char>| #[trigger] g2.has_edge(a, b) == g0.has_edge(a, b) by {
                assert(g1.has_edge(a, b) == g0.has_edge(a, b));
                if !g1.has_node(to@) {
                    assert(push_node(g1, to@).has_edge(a, b) == g1.has_edge(a, b));
                }
            }
            assert(g2.names[f as int] == from@);
        }
        let mut g = DepGraph::new();
        std::mem::swap(&mut g, self);
        proof {
            use_type_invariant(&g);
        }
        let DepGraph { nodes, mut succ } = g;
        assert(succ_view(succ@)[f as int] == succ@[f as int]@);
        let mut found = false;
        let mut k: usize = 0;
        while k < succ[f].len()
            invariant
                f < succ@.len(),
                k <= succ@[f as int]@.len(),
                found <==> exists|q: int| 0 <= q < k && succ@[f as int]@[q] == t,
            decreases succ@[f as int]@.len() - k,
        {
            if succ[f][k] == t {
                found = true;
            }
            k = k + 1;
        }
        if !found {
            let ghost sv0 = succ_view(succ@);
            let mut list = Vec::new();
            std::mem::swap(&mut list, &mut succ[f]);
            list.push(t);
            succ.set(f, list);
            proof {
                let sv = succ_view(succ@);
                let n = nodes@.len();
                assert(sv =~= sv0.update(f as int, sv0[f as int].push(t)));
                assert forall|i: int, q: int| 0 <= i < n && 0 <= q < sv[i].len() implies (#[trigger] sv[i][q]) < n by {
                    if i != f {
                        assert(sv[i] == sv0[i]);
                    }
                }
                assert forall|i: int, q: int, l: int|
                    0 <= i < n && 0 <= q < l < sv[i].len() implies #[trigger] sv[i][q] != #[trigger] sv[i][l] by {
                    if i != f {
                        assert(sv[i] == sv0[i]);
                    } else if l == sv0[f as int].len() {
                        assert(sv[i][q] == sv0[f as int][q]);
                    }
                }
                let gm = GraphModel { names: names_view(nodes@), succ: sv };
                assert forall|a: Seq<char>, b: Seq<char>| #[trigger] gm.has_edge(a, b) <==> g2.has_edge(a, b) || (a == from@ && b == to@) by {
                    if gm.has_edge(a, b) {
                        let (i, q) = choose|i: int, q: int| #[trigger] gm.edge_at(i, q) && gm.names[i] == a && gm.names[gm.succ[i][q] as int] == b;
                        if i != f || q < sv0[f as int].len() {
                            assert(gm.succ[i][q] == g2.succ[i][q]);
                            assert(g2.edge_at(i, q));
                        }
                    }
                    if g2.has_edge(a, b) {
                        let (i, q) = choose|i: int, q: int| #[trigger] g2.edge_at(i, q) && g2.names[i] == a && g2.names[g2.succ[i][q] as int] == b;
                        assert(gm.succ[i][q] == g2.succ[i][q]);
                        assert(gm.edge_at(i, q));
                    }
                    if a == from@ && b == to@ {
                        assert(gm.edge_at(f as int, sv0[f as int].len() as int));
                    }
                }
                assert forall|x: Seq<char>| x != from@ implies #[trigger] gm.successors(x) == g2.successors(x) by {
                    if g2.has_node(x) {
                        let i = choose|i: int| 0 <= i < g2.names.len() && g2.names[i] == x;
                        lemma_index_of(g2, i);
                        lemma_index_of(gm, i);
                        assert(i != f);
                        assert(gm.succ[i] == g2.succ[i]);
                    }
                }
            }
            *self = DepGraph { nodes, succ };
        } else {
            proof {
                let q = choose|q: int| 0 <= q < k && succ@[f as int]@[q] == t;
                assert(g2.edge_at(f as int, q));
                assert(g2.has_edge(from@, to@));
            }
            *self = DepGraph { nodes, succ };
        }
        proof {
            assert forall|n: Seq<char>| #[trigger] self@.has_node(n) <==> g0.has_node(n) || n == from@ || n == to@ by {
                if g0.has_node(n) {
                    let k = choose|k: int| 0 <= k < g0.names.len() && g0.names[k] == n;
                    assert(g1.names[k] == n);
                    assert(g2.names[k] == n);
                }
                if g2.has_node(n) {
                    let k = choose|k: int| 0 <= k < g2.names.len() && g2.names[k] == n;
                    if k < g1.names.len() {
                        assert(g1.names[k] == n);
                        if k < g0.names.len() {
                            assert(g0.names[k] == n);
                        }
                    }
                }
                assert(g1.names[f as int] == from@);
                assert(g2.names[t as int] == to@);
                assert(g2.names[f as int] == from@);
            }
        }
    }

    /// Adds a node (nothing changes when it is there already).
    pub fn add_node(&mut self, node: &str)
        ensures
            final(self)@.has_node(node@),
            old(self)@.has_node(node@) ==> final(self)@ == old(self)@,
            !old(self)@.has_node(node@) ==> final(self)@.names == old(self)@.names.push(node@)
                && final(self)@.succ == old(self)@.succ.push(Seq::<usize>::empty()),
            forall|n: Seq<char>| #[trigger] old(self)@.has_node(n) ==> final(self)@.has_node(n),
            forall|a: Seq<char>, b: Seq<char>| #[trigger] final(self)@.has_edge(a, b) == old(self)@.has_edge(a, b),
    {
        proof {
            use_type_invariant(&*self);
        }
        let ghost g0 = self@;
        let i = self.node_index(node);
        assert(self@.names[i as int] == node@);
        proof {
            let g = self@;
            if !g0.has_node(node@) {
                assert forall|n: Seq<char>| #[trigger] g0.has_node(n) implies g.has_node(n) by {
                    let k = choose|k: int| 0 <= k < g0.names.len() && g0.names[k] == n;
                    assert(g.names[k] == n);
                }
                assert forall|a: Seq<char>, b: Seq<char>| #[trigger] g.has_edge(a, b) == g0.has_edge(a, b) by {
                    if g.has_edge(a, b) {
                        let (x, k) = choose|x: int, k: int| #[trigger] g.edge_at(x, k) && g.names[x] == a && g.names[g.succ[x][k] as int] == b;
                        assert(x < g0.names.len());
                        assert(g.succ[x] == g0.succ[x]);
                        assert(g0.edge_at(x, k));
                        assert(g0.succ[x][k] < g0.names.len());
                        assert(g0.names[g0.succ[x][k] as int] == b);
                    }
                    if g0.has_edge(a, b) {
                        let (x, k) = choose|x: int, k: int| #[trigger] g0.edge_at(x, k) && g0.names[x] == a && g0.names[g0.succ[x][k] as int] == b;
                        assert(g.succ[x] == g0.succ[x]);
                        assert(g.edge_at(x, k));
                        assert(g0.succ[x][k] < g0.names.len());
                        assert(g.names[g.succ[x][k] as int] == b);
                    }
                }
            }
        }
    }

    /// The graph's names are distinct and its successor lists valid.
    pub fn check_wf(&self)
        ensures
            graph_wf(self@),
    {
        proof {
            use_type_invariant(self);
        }
    }
}

/// Distinct names, and successor lists of valid, distinct indices.
pub open spec fn graph_wf(g: GraphModel) -> bool {
    distinct_names(g.names) && succ_wf(g.succ, g.names.len())
}

/// Names in character-code order, as strings are sorted.
pub open spec fn name_compare(a: Seq<char>, b: Seq<char>) -> int {
    lex(a, b, code_compare())
}

/// The order of names is a total order.
pub proof fn lemma_name_order(a: Seq<char>, b: Seq<char>, c: Seq<char>)
    ensures
        -1 <= name_compare(a, b) <= 1,
        name_compare(a, b) == -name_compare(b, a),
        name_compare(a, b) == 0 <==> a == b,
        name_compare(a, b) <= 0 && name_compare(b, c) <= 0 ==> name_compare(a, c) <= 0,
{
    lemma_code_order();
    lemma_lex_total_order(code_compare(), any_char_dom());
    let g = lex_fn(code_compare());
    let d = seq_dom(any_char_dom());
    assert(all_in(a, any_char_dom()));
    assert(all_in(b, any_char_dom()));
    assert(all_in(c, any_char_dom()));
    assert(d(a) && d(b) && d(c));
    assert(g(a, b) == name_compare(a, b));
    assert(g(b, a) == name_compare(b, a));
    assert(g(b, c) == name_compare(b, c));
    assert(g(a, c) == name_compare(a, c));
}

/// Compares two names character by character.
pub(crate) fn compare_names(a: &str, b: &str) -> (r: i8)
    ensures
        r as int == name_compare(a@, b@),
{
    let x = chars_of(a);
    let y = chars_of(b);
    let mut i: usize = 0;
    assert(x@.skip(0) =~= x@);
    assert(y@.skip(0) =~= y@);
    while i < x.len() && i < y.len()
        invariant
            i <= x@.len(),
            i <= y@.len(),
            x@ == a@,
            y@ == b@,
            name_compare(x@, y@) == name_compare(x@.skip(i as int), y@.skip(i as int)),
        decreases x.len() - i,
    {
        let ghost sa = x@.skip(i as int);
        let ghost sb = y@.skip(i as int);
        assert(sa[0] == x@[i as int]);
        assert(sb[0] == y@[i as int]);
        if x[i] < y[i] {
            assert(code_compare()(sa[0], sb[0]) == -1);
            return -1;
        } else if x[i] > y[i] {
            assert(code_compare()(sa[0], sb[0]) == 1);
            return 1;
        }
        assert(code_compare()(sa[0], sb[0]) == 0);
        assert(sa.drop_first() =~= x@.skip(i + 1));
        assert(sb.drop_first() =~= y@.skip(i + 1));
        i = i + 1;
    }
    if i < x.len() {
        1
    } else if i < y.len() {
        -1
    } else {
        assert(x@.skip(i as int).len() == 0 && y@.skip(i as int).len() == 0);
        0
    }
}

/// The node indices `idx` in name order (equal names keep their order).
fn sort_by_name(idx: &Vec<usize>, names: &Vec<String>) -> (r: Vec<usize>)
    requires
        forall|k: int| 0 <= k < idx@.len() ==> (#[trigger] idx@[k]) < names@.len(),
    ensures
        r@.to_multiset() == idx@.to_multiset(),
        forall|k: int| 0 <= k < r@.len() ==> (#[trigger] r@[k]) < names@.len(),
        forall|p: int, q: int|
            0 <= p < q < r@.len() ==> name_compare(names@[#[trigger] r@[p] as int]@, names@[#[trigger] r@[q] as int]@) <= 0,
{
    let mut out: Vec<usize> = Vec::new();
    let mut k: usize = 0;
    assert(out@ =~= idx@.take(0));
    while k < idx.len()
        invariant
            k <= idx@.len(),
            forall|j: int| 0 <= j < idx@.len() ==> (#[trigger] idx@[j]) < names@.len(),
            out@.to_multiset() == idx@.take(k as int).to_multiset(),
            forall|j: int| 0 <= j < out@.len() ==> (#[trigger] out@[j]) < names@.len(),
            forall|p: int, q: int|
                0 <= p < q < out@.len() ==> name_compare(names@[#[trigger] out@[p] as int]@, names@[#[trigger] out@[q] as int]@) <= 0,
        decreases idx.len() - k,
    {
        let w = idx[k];
        let ghost o = out@;
        let mut p: usize = 0;
        while p < out.len() && compare_names(names[out[p]].as_str(), names[w].as_str()) <= 0
            invariant
                p <= out@.len(),
                o == out@,
                w < names@.len(),
                forall|j: int| 0 <= j < out@.len() ==> (#[trigger] out@[j]) < names@.len(),
                forall|j: int| 0 <= j < p ==> name_compare(names@[#[trigger] o[j] as int]@, names@[w as int]@) <= 0,
            decreases out.len() - p,
        {
            p = p + 1;
        }
        proof {
            if p < o.len() {
                lemma_name_order(names@[o[p as int] as int]@, names@[w as int]@, names@[w as int]@);
            }
        }
        out.insert(p, w);
        proof {
            let nv = out@;
            let ww = names@[w as int]@;
            assert(nv =~= o.insert(p as int, w));
            assert forall|j: int| 0 <= j < nv.len() implies (#[trigger] nv[j]) < names@.len() by {
                if j < p {
                    assert(nv[j] == o[j]);
                } else if j > p {
                    assert(nv[j] == o[j - 1]);
                }
            }
            assert forall|x: int, y: int| 0 <= x < y < nv.len() implies name_compare(
                names@[#[trigger] nv[x] as int]@,
                names@[#[trigger] nv[y] as int]@,
            ) <= 0 by {
                if y < p {
                    assert(nv[x] == o[x] && nv[y] == o[y]);
                } else if y == p {
                    assert(nv[x] == o[x]);
                } else if x < p {
                    assert(nv[x] == o[x] && nv[y] == o[y - 1]);
                    let a = names@[o[x] as int]@;
                    let c = names@[o[p as int] as int]@;
                    let d = names@[o[y - 1] as int]@;
                    lemma_name_order(a, ww, c);
                    lemma_name_order(a, c, d);
                    lemma_name_order(ww, c, d);
                } else if x == p {
                    assert(nv[y] == o[y - 1]);
                    let c = names@[o[p as int] as int]@;
                    let d = names@[o[y - 1] as int]@;
                    lemma_name_order(ww, c, d);
                } else {
                    assert(nv[x] == o[x - 1] && nv[y] == o[y - 1]);
                }
            }
            vstd::seq_lib::to_multiset_insert(o, p as int, w);
            assert(idx@.take(k + 1) =~= idx@.take(k as int).push(w));
            vstd::seq_lib::to_multiset_build(idx@.take(k as int), w);
        }
        k = k + 1;
    }
    assert(idx@.take(k as int) =~= idx@);
    out
}

/// The number of nodes not visited yet (colour `0`).
pub open spec fn count_white(s: Seq<u8>) -> nat
    decreases s.len(),
{
    if s.len() == 0 {
        0
    } else {
        count_white(s.drop_last()) + (if s.last() == 0 {
            1nat
        } else {
            0nat
        })
    }
}

/// Visiting nodes only turns unvisited ones into visited ones: the count
/// of unvisited nodes goes down, strictly when one more is visited.
proof fn lemma_count_white(a: Seq<u8>, b: Seq<u8>, v: int)
    requires
        a.len() == b.len(),
        forall|k: int| 0 <= k < b.len() && b[k] == 0 ==> a[k] == 0,
    ensures
        count_white(b) <= count_white(a),
        0 <= v < a.len() && a[v] == 0 && b[v] != 0 ==> count_white(b) < count_white(a),
    decreases a.len(),
{
    if a.len() > 0 {
        lemma_count_white(a.drop_last(), b.drop_last(), v);
    }
}

/// The position after `k` in a cycle of length `n`.
pub open spec fn wrap_next(k: int, n: int) -> int {
    if k + 1 == n {
        0
    } else {
        k + 1
    }
}

/// The names form a cycle of the graph: each has an edge to the next, the
/// last one to the first.
pub open spec fn is_name_cycle(g: GraphModel, c: Seq<Seq<char>>) -> bool {
    forall|k: int| 0 <= k < c.len() ==> g.has_edge(#[trigger] c[k], c[wrap_next(k, c.len() as int)])
}

/// `c` is a cycle of node indices: each node has an edge to the next, and
/// the last one to the first.
pub open spec fn is_index_cycle(succ: Seq<Seq<usize>>, c: Seq<usize>) -> bool {
    &&& c.len() > 0
    &&& forall|k: int| 0 <= k < c.len() - 1 ==> succ[c[k] as int].contains(#[trigger] c[k + 1])
    &&& succ[c.last() as int].contains(c[0])
}

/// `path` is a chain of edges, ending in a node with an edge to `next`
/// when given.
pub open spec fn is_chain(succ: Seq<Seq<usize>>, path: Seq<usize>) -> bool {
    forall|k: int| 0 <= k < path.len() - 1 ==> succ[path[k] as int].contains(#[trigger] path[k + 1])
}

/// The nodes on the current path are exactly those of colour `1`; every
/// colour is `0`, `1` or `2`.
pub open spec fn colours_match(colour: Seq<u8>, path: Seq<usize>, n: nat) -> bool {
    &&& colour.len() == n
    &&& forall|v: int| 0 <= v < n ==> (#[trigger] colour[v] == 1 <==> path.contains(v as usize))
    &&& forall|v: int| 0 <= v < n ==> #[trigger] colour[v] <= 2
    &&& forall|k: int| 0 <= k < path.len() ==> (#[trigger] path[k]) < n
}

/// Every finished node (colour `2`) has a finish stamp below `clock`, and
/// its successors finished before it.
pub open spec fn finish_ordered(colour: Seq<u8>, fin: Seq<usize>, clock: usize, succ: Seq<Seq<usize>>) -> bool {
    &&& fin.len() == colour.len()
    &&& forall|v: int| 0 <= v < colour.len() && #[trigger] colour[v] == 2 ==> fin[v] < clock
    &&& forall|v: int, k: int|
        0 <= v < colour.len() && colour[v] == 2 && 0 <= k < succ[v].len() ==> colour[#[trigger] succ[v][k] as int] == 2
            && fin[succ[v][k] as int] < fin[v]
}

/// Changing the colour of a node from unvisited to visited takes one from
/// the count of unvisited nodes; between visited colours, none.
proof fn lemma_count_white_set(a: Seq<u8>, v: int, x: u8)
    requires
        0 <= v < a.len(),
        x != 0,
    ensures
        a[v] == 0 ==> count_white(a.update(v, x)) + 1 == count_white(a),
        a[v] != 0 ==> count_white(a.update(v, x)) == count_white(a),
    decreases a.len(),
{
    let b = a.update(v, x);
    if v < a.len() - 1 {
        assert(b.drop_last() =~= a.drop_last().update(v, x));
        lemma_count_white_set(a.drop_last(), v, x);
    } else {
        assert(b.drop_last() =~= a.drop_last());
    }
}

/// The count of unvisited nodes is at most the number of nodes.
proof fn lemma_count_white_le(a: Seq<u8>)
    ensures
        count_white(a) <= a.len(),
    decreases a.len(),
{
    if a.len() > 0 {
        lemma_count_white_le(a.drop_last());
    }
}

/// With every node finished, and successors finished first, no walk comes
/// back to its start.
proof fn lemma_finished_acyclic(colour: Seq<u8>, fin: Seq<usize>, clock: usize, succ: Seq<Seq<usize>>)
    requires
        succ_wf(succ, colour.len()),
        finish_ordered(colour, fin, clock, succ),
        forall|v: int| 0 <= v < colour.len() ==> #[trigger] colour[v] == 2,
    ensures
        acyclic(succ),
{
    assert forall|p: Seq<int>| #[trigger] is_walk(succ, p) && p.len() >= 2 implies p[0] != p.last() by {
        lemma_walk_fin(colour, fin, clock, succ, p, p.len() - 1);
    }
}

/// Along a walk, finish stamps decrease.
proof fn lemma_walk_fin(colour: Seq<u8>, fin: Seq<usize>, clock: usize, succ: Seq<Seq<usize>>, p: Seq<int>, j: int)
    requires
        succ_wf(succ, colour.len()),
        finish_ordered(colour, fin, clock, succ),
        forall|v: int| 0 <= v < colour.len() ==> #[trigger] colour[v] == 2,
        is_walk(succ, p),
        1 <= j < p.len(),
    ensures
        0 <= p[j] < colour.len(),
        fin[p[j]] < fin[p[0]],
    decreases j,
{
    assert(edge_to(succ, p[j - 1], p[j]));
    let q = choose|q: int| 0 <= q < succ[p[j - 1]].len() && #[trigger] succ[p[j - 1]][q] as int == p[j];
    assert(colour[p[j - 1]] == 2);
    assert(colour[succ[p[j - 1]][q] as int] == 2 && fin[succ[p[j - 1]][q] as int] < fin[p[j - 1]]);
    if j > 1 {
        lemma_walk_fin(colour, fin, clock, succ, p, j - 1);
    }
}

impl DepGraph {
    /// The successors of node `i`, in name order.
    fn sorted_successors(&self, i: usize) -> (r: Vec<usize>)
        requires
            i < self@.names.len(),
        ensures
            forall|k: int| 0 <= k < r@.len() ==> self@.succ[i as int].contains(#[trigger] r@[k]),
            forall|k: int| 0 <= k < r@.len() ==> (#[trigger] r@[k]) < self@.names.len(),
            r@.to_multiset() == self@.succ[i as int].to_multiset(),
            forall|p: int, q: int|
                0 <= p < q < r@.len() ==> name_compare(self@.names[#[trigger] r@[p] as int], self@.names[#[trigger] r@[q] as int]) <= 0,
    {
        proof {
            use_type_invariant(self);
        }
        assert(succ_view(self.succ@)[i as int] == self.succ@[i as int]@);
        let r = sort_by_name(&self.succ[i], &self.nodes);
        proof {
            assert forall|k: int| 0 <= k < r@.len() implies self@.succ[i as int].contains(#[trigger] r@[k]) by {
                assert(r@.contains(r@[k]));
                vstd::seq_lib::to_multiset_contains(r@, r@[k]);
                vstd::seq_lib::to_multiset_contains(self.succ@[i as int]@, r@[k]);
            }
        }
        r
    }

    /// Depth-first search from `node` for a back edge to the current path;
    /// returns the cycle it closes.
    #[verifier::spinoff_prover]
    #[verifier::rlimit(40)]
    fn dfs_cycle(
        &self,
        node: usize,
        colour: &mut Vec<u8>,
        path: &mut Vec<usize>,
        fin: &mut Vec<usize>,
        clock: &mut usize,
    ) -> (r: Option<Vec<usize>>)
        requires
            node < self@.names.len(),
            colours_match(old(colour)@, old(path)@, self@.names.len()),
            old(colour)@[node as int] == 0,
            is_chain(self@.succ, old(path)@),
            old(path)@.len() > 0 ==> self@.succ[old(path)@.last() as int].contains(node),
            old(path)@.no_duplicates(),
            finish_ordered(old(colour)@, old(fin)@, *old(clock), self@.succ),
            *old(clock) + count_white(old(colour)@) + old(path)@.len() == self@.names.len(),
        ensures
            r is None ==> finish_ordered(final(colour)@, final(fin)@, *final(clock), self@.succ)
                && *final(clock) + count_white(final(colour)@) + final(path)@.len() == self@.names.len()
                && final(colour)@[node as int] == 2,
            forall|v: int| 0 <= v < old(colour)@.len() && old(colour)@[v] == 2 ==> #[trigger] final(colour)@[v] == 2
                && final(fin)@[v] == old(fin)@[v],
            final(fin)@.len() == old(fin)@.len(),
            r matches Some(c) ==> is_index_cycle(self@.succ, c@) && forall|k: int|
                0 <= k < c@.len() ==> (#[trigger] c@[k]) < self@.names.len(),
            r matches Some(c) ==> c@.no_duplicates(),
            r is None ==> final(path)@ == old(path)@ && colours_match(final(colour)@, final(path)@, self@.names.len()),
            final(colour)@.len() == old(colour)@.len(),
            forall|v: int| 0 <= v < final(colour)@.len() && #[trigger] final(colour)@[v] == 0 ==> old(colour)@[v] == 0,
            final(colour)@[node as int] != 0,
        decreases count_white(colour@),
    {
        proof {
            use_type_invariant(self);
        }
        let n = self.nodes.len();
        let ghost c0 = colour@;
        let ghost p0 = path@;
        let ghost f0 = fin@;
        colour.set(node, 1);
        path.push(node);
        proof {
            lemma_count_white_set(c0, node as int, 1);
            assert(colour@ == c0.update(node as int, 1));
            assert forall|v: int, k: int|
                0 <= v < colour@.len() && colour@[v] == 2 && 0 <= k < self@.succ[v].len() implies colour@[#[trigger] self@.succ[v][k] as int] == 2
                    && fin@[self@.succ[v][k] as int] < fin@[v] by {
                assert(c0[v] == 2);
                assert(c0[self@.succ[v][k] as int] == 2);
            }
            assert forall|v: int| 0 <= v < n implies (#[trigger] colour@[v] == 1 <==> path@.contains(v as usize)) by {
                if v == node {
                    assert(path@[p0.len() as int] == node);
                } else {
                    if path@.contains(v as usize) {
                        let k = choose|k: int| 0 <= k < path@.len() && path@[k] == v as usize;
                        assert(k < p0.len());
                        assert(p0[k] == v as usize);
                    }
                    if p0.contains(v as usize) {
                        let k = choose|k: int| 0 <= k < p0.len() && p0[k] == v as usize;
                        assert(path@[k] == v as usize);
                    }
                }
            }
            assert forall|k: int| 0 <= k < path@.len() - 1 implies self@.succ[path@[k] as int].contains(#[trigger] path@[k + 1]) by {
                if k + 1 < p0.len() {
                    assert(path@[k] == p0[k] && path@[k + 1] == p0[k + 1]);
                } else {
                    assert(path@[k] == p0.last());
                }
            }
            assert(!p0.contains(node)) by {
                assert(c0[node as int] == 0);
            }
            lemma_count_white(c0, colour@, node as int);
        }
        let succ = self.sorted_successors(node);
        let mut i: usize = 0;
        while i < succ.len()
            invariant
                n == self@.names.len(),
                node < n,
                forall|k: int| 0 <= k < succ@.len() ==> self@.succ[node as int].contains(#[trigger] succ@[k]),
                forall|k: int| 0 <= k < succ@.len() ==> (#[trigger] succ@[k]) < n,
                colours_match(colour@, path@, n as nat),
                path@ == p0.push(node),
                is_chain(self@.succ, path@),
                colour@.len() == c0.len(),
                c0 == old(colour)@,
                p0 == old(path)@,
                forall|v: int| 0 <= v < colour@.len() && #[trigger] colour@[v] == 0 ==> c0[v] == 0,
                colour@[node as int] == 1,
                p0.no_duplicates(),
                !p0.contains(node),
                count_white(colour@) < count_white(c0),
                f0 == old(fin)@,
                f0.len() == n,
                fin@.len() == n,
                finish_ordered(colour@, fin@, *clock, self@.succ),
                *clock + count_white(colour@) + path@.len() == n,
                forall|v: int| 0 <= v < c0.len() && c0[v] == 2 ==> #[trigger] colour@[v] == 2 && fin@[v] == f0[v],
                forall|k: int| 0 <= k < i ==> colour@[#[trigger] succ@[k] as int] == 2,
                succ@.to_multiset() == self@.succ[node as int].to_multiset(),
            decreases succ.len() - i,
        {
            let next = succ[i];
            assert(self@.succ[node as int].contains(next));
            let c = colour[next];
            if c == 0 {
                let ghost before = colour@;
                proof {
                    assert(path@.last() == node);
                    assert forall|a: int, b: int| 0 <= a < b < path@.len() implies path@[a] != path@[b] by {
                        if b == p0.len() {
                            assert(path@[a] == p0[a]);
                        } else {
                            assert(path@[a] == p0[a] && path@[b] == p0[b]);
                        }
                    }
                }
                let ghost fb = fin@;
                let found = self.dfs_cycle(next, colour, path, fin, clock);
                proof {
                    assert forall|v: int| 0 <= v < c0.len() && c0[v] == 2 implies #[trigger] colour@[v] == 2 && fin@[v] == f0[v] by {
                        assert(before[v] == 2 && fb[v] == f0[v]);
                    }
                }
                if found.is_some() {
                    proof {
                        assert forall|v: int| 0 <= v < colour@.len() && #[trigger] colour@[v] == 0 implies c0[v] == 0 by {
                            assert(before[v] == 0);
                        }
                        assert(colour@[node as int] != 0) by {
                            if colour@[node as int] == 0 {
                                assert(before[node as int] == 0);
                            }
                        }
                    }
                    return found;
                }
                proof {
                    lemma_count_white(before, colour@, next as int);
                    lemma_count_white(c0, colour@, node as int);
                    assert forall|k: int| 0 <= k < i + 1 implies colour@[#[trigger] succ@[k] as int] == 2 by {
                        if k < i {
                            assert(before[succ@[k] as int] == 2);
                        }
                    }
                }
            } else if c == 1 {
                assert(path@.contains(next));
                let mut start: usize = 0;
                while start < path.len() && path[start] != next
                    invariant
                        start <= path@.len(),
                        forall|k: int| 0 <= k < start ==> path@[k] != next,
                    decreases path@.len() - start,
                {
                    start = start + 1;
                }
                proof {
                    if start == path@.len() {
                        let k = choose|k: int| 0 <= k < path@.len() && path@[k] == next;
                    }
                }
                let mut cycle: Vec<usize> = Vec::new();
                let mut j = start;
                while j < path.len()
                    invariant
                        start <= j <= path@.len(),
                        cycle@ == path@.subrange(start as int, j as int),
                    decreases path@.len() - j,
                {
                    cycle.push(path[j]);
                    j = j + 1;
                    assert(cycle@ =~= path@.subrange(start as int, j as int));
                }
                proof {
                    let cy = cycle@;
                    assert forall|k: int| 0 <= k < cy.len() implies (#[trigger] cy[k]) < n by {
                        assert(cy[k] == path@[start + k]);
                    }
                    assert(cy[0] == next);
                    assert(cy.last() == path@.last());
                    assert(path@.last() == node);
                    assert forall|k: int| 0 <= k < cy.len() - 1 implies self@.succ[cy[k] as int].contains(#[trigger] cy[k + 1]) by {
                        assert(cy[k] == path@[start + k] && cy[k + 1] == path@[start + k + 1]);
                    }
                    assert forall|a: int, b: int| 0 <= a < b < cy.len() implies cy[a] != cy[b] by {
                        assert(cy[a] == path@[start + a] && cy[b] == path@[start + b]);
                        if start + b == p0.len() {
                            assert(path@[start + a] == p0[start + a]);
                        } else {
                            assert(path@[start + a] == p0[start + a] && path@[start + b] == p0[start + b]);
                        }
                    }
                }
                return Some(cycle);
            }
            i = i + 1;
        }
        let ghost cb = colour@;
        let ghost fb = fin@;
        let ghost k0 = *clock;
        assert(forall|v: int| 0 <= v < c0.len() && c0[v] == 2 ==> #[trigger] cb[v] == 2 && fb[v] == f0[v]);
        path.pop();
        colour.set(node, 2);
        proof {
            lemma_count_white_le(cb);
        }
        fin.set(node, *clock);
        *clock = *clock + 1;
        proof {
            lemma_count_white_set(cb, node as int, 2);
            assert(colour@ == cb.update(node as int, 2));
            assert(fin@ == fb.update(node as int, k0));
            assert forall|x: usize| #[trigger] self@.succ[node as int].contains(x) implies cb[x as int] == 2 by {
                vstd::seq_lib::to_multiset_contains(self@.succ[node as int], x);
                vstd::seq_lib::to_multiset_contains(succ@, x);
                let k = choose|k: int| 0 <= k < succ@.len() && succ@[k] == x;
                assert(colour@[succ@[k] as int] == 2);
            }
            assert forall|v: int| 0 <= v < colour@.len() && #[trigger] colour@[v] == 2 implies fin@[v] < *clock by {
                if v != node {
                    assert(cb[v] == 2);
                }
            }
            assert forall|v: int, k: int|
                0 <= v < colour@.len() && colour@[v] == 2 && 0 <= k < self@.succ[v].len() implies colour@[#[trigger] self@.succ[v][k] as int] == 2
                    && fin@[self@.succ[v][k] as int] < fin@[v] by {
                let w = self@.succ[v][k];
                if v == node {
                    assert(self@.succ[node as int].contains(w));
                    assert(cb[w as int] == 2);
                    assert(w != node);
                } else {
                    assert(cb[v] == 2);
                    assert(cb[w as int] == 2);
                    assert(w != node);
                }
            }
        }
        proof {
            assert forall|v: int| 0 <= v < c0.len() && c0[v] == 2 implies #[trigger] colour@[v] == 2 && fin@[v] == f0[v] by {
                assert(v != node);
                assert(0 <= v < c0.len() && c0[v] == 2);
                assert(cb[v] == 2);
                assert(fb[v] == f0[v]);
                assert(colour@[v] == cb[v]);
                assert(fin@[v] == fb[v]);
            }
        }
        proof {
            assert(path@ =~= p0);
            assert forall|v: int| 0 <= v < n implies (#[trigger] colour@[v] == 1 <==> path@.contains(v as usize)) by {
                if v != node {
                    assert(colour@[v] == cb[v]);
                    if p0.contains(v as usize) {
                        let k = choose|k: int| 0 <= k < p0.len() && p0[k] == v as usize;
                        assert(p0.push(node)[k] == v as usize);
                    }
                    if p0.push(node).contains(v as usize) {
                        let k = choose|k: int| 0 <= k < p0.len() + 1 && p0.push(node)[k] == v as usize;
                        assert(k < p0.len());
                        assert(p0[k] == v as usize);
                    }
                } else {
                    assert(!p0.contains(node)) by {
                        if p0.contains(node) {
                            let k = choose|k: int| 0 <= k < p0.len() && p0[k] == node;
                            assert(c0[node as int] == 1);
                        }
                    }
                }
            }
            assert forall|v: int| 0 <= v < colour@.len() && #[trigger] colour@[v] == 0 implies c0[v] == 0 by {
                if v != node {
                    assert(colour@[v] == cb[v]);
                }
            }
        }
        None
    }

    /// One dependency cycle, as the names of its nodes in order (each with
    /// an edge to the next, the last one to the first), or nothing.
    pub fn find_cycle(&self) -> (r: Vec<String>)
        ensures
            r@.len() > 0 ==> is_name_cycle(self@, names_view(r@)),
            r@.len() == 0 ==> self.is_acyclic(),
            names_view(r@).no_duplicates(),
    {
        proof {
            use_type_invariant(self);
        }
        let n = self.nodes.len();
        let mut colour: Vec<u8> = Vec::new();
        let mut fin: Vec<usize> = Vec::new();
        let mut all: Vec<usize> = Vec::new();
        let mut i: usize = 0;
        while i < n
            invariant
                i <= n,
                n == self@.names.len(),
                colour@.len() == i,
                fin@.len() == i,
                all@.len() == i,
                forall|v: int| 0 <= v < i ==> #[trigger] colour@[v] == 0,
                forall|v: int| 0 <= v < i ==> #[trigger] all@[v] == v,
                count_white(colour@) == i,
            decreases n - i,
        {
            let ghost c = colour@;
            colour.push(0);
            fin.push(0);
            all.push(i);
            assert(colour@.drop_last() =~= c);
            i = i + 1;
        }
        let mut clock: usize = 0;
        let roots = sort_by_name(&all, &self.nodes);
        let mut path: Vec<usize> = Vec::new();
        assert(colours_match(colour@, path@, n as nat));
        let mut k: usize = 0;
        while k < roots.len()
            invariant
                n == self@.names.len(),
                forall|j: int| 0 <= j < roots@.len() ==> (#[trigger] roots@[j]) < n,
                colours_match(colour@, path@, n as nat),
                path@.len() == 0,
                k <= roots@.len(),
                finish_ordered(colour@, fin@, clock, self@.succ),
                clock + count_white(colour@) + path@.len() == n,
                forall|j: int| 0 <= j < k ==> colour@[#[trigger] roots@[j] as int] != 0,
            decreases roots.len() - k,
        {
            let root = roots[k];
            if colour[root] == 0 {
                let ghost before = colour@;
                if let Some(cycle) = self.dfs_cycle(root, &mut colour, &mut path, &mut fin, &mut clock) {
                    return self.names_of(&cycle);
                }
                proof {
                    assert forall|j: int| 0 <= j < k + 1 implies colour@[#[trigger] roots@[j] as int] != 0 by {
                        if j < k && colour@[roots@[j] as int] == 0 {
                            assert(before[roots@[j] as int] == 0);
                        }
                    }
                }
            }
            k = k + 1;
        }
        proof {
            assert forall|v: int| 0 <= v < colour@.len() implies #[trigger] colour@[v] == 2 by {
                assert(all@[v] == v as usize);
                vstd::seq_lib::to_multiset_contains(all@, v as usize);
                vstd::seq_lib::to_multiset_contains(roots@, v as usize);
                let j = choose|j: int| 0 <= j < roots@.len() && roots@[j] == v as usize;
                assert(colour@[roots@[j] as int] != 0);
                assert(!path@.contains(v as usize));
            }
            lemma_finished_acyclic(colour@, fin@, clock, self@.succ);
        }
        let none: Vec<String> = Vec::new();
        assert(names_view(none@) =~= Seq::<Seq<char>>::empty());
        none
    }

    /// The names of a cycle of nodes.
    fn names_of(&self, cycle: &Vec<usize>) -> (r: Vec<String>)
        requires
            is_index_cycle(self@.succ, cycle@),
            forall|k: int| 0 <= k < cycle@.len() ==> (#[trigger] cycle@[k]) < self@.names.len(),
            cycle@.no_duplicates(),
        ensures
            r@.len() > 0 ==> is_name_cycle(self@, names_view(r@)),
            r@.len() == cycle@.len(),
            forall|k: int| 0 <= k < r@.len() ==> (#[trigger] r@[k])@ == self@.names[cycle@[k] as int],
            names_view(r@).no_duplicates(),
    {
        proof {
            use_type_invariant(self);
        }
        let r = self.names_along(cycle);
        proof {
            assert forall|a: int, b: int| 0 <= a < b < names_view(r@).len() implies names_view(r@)[a] != names_view(r@)[b] by {
                assert(names_view(r@)[a] == r@[a]@ && names_view(r@)[b] == r@[b]@);
                assert(cycle@[a] != cycle@[b]);
            }
        }
        r
    }

    /// The names of a cycle of nodes, in order.
    fn names_along(&self, cycle: &Vec<usize>) -> (r: Vec<String>)
        requires
            is_index_cycle(self@.succ, cycle@),
            forall|k: int| 0 <= k < cycle@.len() ==> (#[trigger] cycle@[k]) < self@.names.len(),
        ensures
            r@.len() > 0 ==> is_name_cycle(self@, names_view(r@)),
            r@.len() == cycle@.len(),
            forall|k: int| 0 <= k < r@.len() ==> (#[trigger] r@[k])@ == self@.names[cycle@[k] as int],
    {
        proof {
            use_type_invariant(self);
        }
        let mut r: Vec<String> = Vec::new();
        let mut i: usize = 0;
        while i < cycle.len()
            invariant
                i <= cycle@.len(),
                r@.len() == i,
                forall|k: int| 0 <= k < cycle@.len() ==> (#[trigger] cycle@[k]) < self@.names.len(),
                forall|k: int| 0 <= k < i ==> (#[trigger] r@[k])@ == self@.names[cycle@[k] as int],
            decreases cycle.len() - i,
        {
            let name = self.nodes[cycle[i]].clone();
            assert(names_view(self.nodes@)[cycle@[i as int] as int] == self.nodes@[cycle@[i as int] as int]@);
            r.push(name);
            i = i + 1;
        }
        proof {
            let m = r@.len() as int;
            let nv = names_view(r@);
            assert forall|k: int| 0 <= k < m implies self@.has_edge(#[trigger] nv[k], nv[wrap_next(k, m)]) by {
                let a = cycle@[k];
                let kn = wrap_next(k, m);
                assert(nv[k] == r@[k]@ && nv[kn] == r@[kn]@);
                let b = cycle@[kn];
                assert(self@.succ[a as int].contains(b));
                let q = choose|q: int| 0 <= q < self@.succ[a as int].len() && self@.succ[a as int][q] == b;
                assert(self@.edge_at(a as int, q));
            }
        }
        r
    }
}

/// Node `m` has an edge to node `b`.
pub open spec fn edge_to(succ: Seq<Seq<usize>>, m: int, b: int) -> bool {
    0 <= m < succ.len() && exists|q: int| 0 <= q < succ[m].len() && #[trigger] succ[m][q] as int == b
}

/// `p` is a walk along edges.
pub open spec fn is_walk(succ: Seq<Seq<usize>>, p: Seq<int>) -> bool {
    forall|i: int| 0 <= i < p.len() - 1 ==> edge_to(succ, #[trigger] p[i], p[i + 1])
}

/// A walk from `a` to `b`.
pub open spec fn walk_from_to(succ: Seq<Seq<usize>>, p: Seq<int>, a: int, b: int) -> bool {
    p.len() >= 1 && p[0] == a && p.last() == b && is_walk(succ, p)
}

/// Node `b` can be reached from node `a` (in zero or more steps).
pub open spec fn reaches(succ: Seq<Seq<usize>>, a: int, b: int) -> bool {
    exists|p: Seq<int>| #[trigger] walk_from_to(succ, p, a, b)
}

/// No walk of one step or more comes back to where it started.
pub open spec fn acyclic(succ: Seq<Seq<usize>>) -> bool {
    forall|p: Seq<int>| #[trigger] is_walk(succ, p) && p.len() >= 2 ==> p[0] != p.last()
}

/// A set of nodes holding `a` and every successor of its members holds
/// every node of a walk from `a`.
proof fn lemma_closed_holds_walk(succ: Seq<Seq<usize>>, s: Seq<bool>, p: Seq<int>, i: int)
    requires
        s.len() == succ.len(),
        p.len() >= 1,
        0 <= p[0] < s.len(),
        s[p[0]],
        forall|x: int, q: int| 0 <= x < s.len() && s[x] && 0 <= q < succ[x].len() ==> s[#[trigger] succ[x][q] as int],
        is_walk(succ, p),
        0 <= i < p.len(),
        forall|x: int, q: int| 0 <= x < succ.len() && 0 <= q < succ[x].len() ==> (#[trigger] succ[x][q]) < succ.len(),
    ensures
        0 <= p[i] < s.len() && s[p[i]],
    decreases i,
{
    if i > 0 {
        lemma_closed_holds_walk(succ, s, p, i - 1);
        assert(edge_to(succ, p[i - 1], p[i]));
        let q = choose|q: int| 0 <= q < succ[p[i - 1]].len() && #[trigger] succ[p[i - 1]][q] as int == p[i];
        assert(s[succ[p[i - 1]][q] as int]);
    }
}

/// One more step from a reachable node.
proof fn lemma_reach_step(succ: Seq<Seq<usize>>, a: int, m: int, q: int)
    requires
        reaches(succ, a, m),
        0 <= m < succ.len(),
        0 <= q < succ[m].len(),
    ensures
        reaches(succ, a, succ[m][q] as int),
{
    let p = choose|p: Seq<int>| #[trigger] walk_from_to(succ, p, a, m);
    let b = succ[m][q] as int;
    let p2 = p.push(b);
    assert(edge_to(succ, m, b));
    assert forall|i: int| 0 <= i < p2.len() - 1 implies edge_to(succ, #[trigger] p2[i], p2[i + 1]) by {
        if i < p.len() - 1 {
            assert(p2[i] == p[i] && p2[i + 1] == p[i + 1]);
            assert(edge_to(succ, p[i], p[i + 1]));
        } else {
            assert(p2[i] == m && p2[i + 1] == b);
        }
    }
    assert(walk_from_to(succ, p2, a, b));
}

/// The number of unmarked entries.
pub open spec fn count_false(s: Seq<bool>) -> nat
    decreases s.len(),
{
    if s.len() == 0 {
        0
    } else {
        count_false(s.drop_last()) + (if s.last() {
            0nat
        } else {
            1nat
        })
    }
}

/// Marking an unmarked entry lowers the count of unmarked ones.
proof fn lemma_count_false_mark(s: Seq<bool>, x: int)
    requires
        0 <= x < s.len(),
        !s[x],
    ensures
        count_false(s.update(x, true)) < count_false(s),
    decreases s.len(),
{
    if x < s.len() - 1 {
        assert(s.update(x, true).drop_last() =~= s.drop_last().update(x, true));
        lemma_count_false_mark(s.drop_last(), x);
    } else {
        assert(s.update(x, true).drop_last() =~= s.drop_last());
    }
}

impl DepGraph {
    /// The nodes reachable from node `start`, itself included, as marks.
    fn reachable_from(&self, start: usize) -> (r: Vec<bool>)
        requires
            start < self@.names.len(),
        ensures
            r@.len() == self@.names.len(),
            forall|j: int| 0 <= j < r@.len() ==> (#[trigger] r@[j] <==> reaches(self@.succ, start as int, j)),
    {
        proof {
            use_type_invariant(self);
        }
        let n = self.nodes.len();
        let ghost sv = self@.succ;
        let mut marked: Vec<bool> = Vec::new();
        let mut i: usize = 0;
        while i < n
            invariant
                i <= n,
                marked@.len() == i,
                forall|j: int| 0 <= j < i ==> !#[trigger] marked@[j],
            decreases n - i,
        {
            marked.push(false);
            i = i + 1;
        }
        let mut stack: Vec<usize> = Vec::new();
        stack.push(start);
        proof {
            assert(walk_from_to(sv, seq![start as int], start as int, start as int));
            assert(stack@[0] == start);
        }
        while stack.len() > 0
            invariant
                n == self@.names.len(),
                sv == self@.succ,
                succ_wf(sv, n as nat),
                start < n,
                marked@.len() == n,
                forall|k: int| 0 <= k < stack@.len() ==> (#[trigger] stack@[k]) < n,
                forall|j: int| 0 <= j < n && #[trigger] marked@[j] ==> reaches(sv, start as int, j),
                forall|k: int| 0 <= k < stack@.len() ==> reaches(sv, start as int, #[trigger] stack@[k] as int),
                marked@[start as int] || stack@.contains(start),
                forall|x: int, q: int|
                    0 <= x < n && marked@[x] && 0 <= q < sv[x].len() ==> marked@[#[trigger] sv[x][q] as int]
                        || stack@.contains(sv[x][q]),
            decreases count_false(marked@), stack@.len(),
        {
            let ghost st0 = stack@;
            let x = stack.pop().unwrap();
            let ghost st1 = stack@;
            assert(st0 =~= st1.push(x));
            if !marked[x] {
                let ghost m0 = marked@;
                proof {
                    lemma_count_false_mark(marked@, x as int);
                }
                marked.set(x, true);
                assert(succ_view(self.succ@)[x as int] == self.succ@[x as int]@);
                let ghost m1 = marked@;
                let mut q: usize = 0;
                while q < self.succ[x].len()
                    invariant
                        n == self@.names.len(),
                        sv == self@.succ,
                        sv == succ_view(self.succ@),
                        succ_wf(sv, n as nat),
                        x < n,
                        marked@ == m1,
                        marked@.len() == n,
                        q <= sv[x as int].len(),
                        stack@.len() >= st1.len(),
                        forall|k: int| 0 <= k < st1.len() ==> stack@[k] == st1[k],
                        forall|k: int| 0 <= k < stack@.len() ==> (#[trigger] stack@[k]) < n,
                        forall|k: int| 0 <= k < stack@.len() ==> reaches(sv, start as int, #[trigger] stack@[k] as int),
                        reaches(sv, start as int, x as int),
                        forall|p: int| 0 <= p < q ==> marked@[#[trigger] sv[x as int][p] as int] || stack@.contains(sv[x as int][p]),
                    decreases self.succ@[x as int]@.len() - q,
                {
                    let s = self.succ[x][q];
                    assert(sv[x as int][q as int] == s);
                    if !marked[s] {
                        let ghost sb = stack@;
                        stack.push(s);
                        proof {
                            lemma_reach_step(sv, start as int, x as int, q as int);
                            assert forall|p: int| 0 <= p < q + 1 implies marked@[#[trigger] sv[x as int][p] as int] || stack@.contains(sv[x as int][p]) by {
                                if p < q && !marked@[sv[x as int][p] as int] {
                                    let k = choose|k: int| 0 <= k < sb.len() && sb[k] == sv[x as int][p];
                                    assert(stack@[k] == sb[k]);
                                }
                                if p == q {
                                    assert(stack@[sb.len() as int] == s);
                                }
                            }
                        }
                    }
                    q = q + 1;
                }
                proof {
                    assert forall|y: int, p: int|
                        0 <= y < n && marked@[y] && 0 <= p < sv[y].len() implies marked@[#[trigger] sv[y][p] as int]
                            || stack@.contains(sv[y][p]) by {
                        if y != x {
                            assert(m0[y]);
                            let t = sv[y][p];
                            if !marked@[t as int] {
                                // it was on the stack before `x` was popped, and is not `x`
                                assert(m0[t as int] == false);
                                assert(st0.contains(t));
                                let k = choose|k: int| 0 <= k < st0.len() && st0[k] == t;
                                if k < st1.len() {
                                    assert(stack@[k] == t);
                                } else {
                                    assert(t == x);
                                }
                            }
                        }
                    }
                    if !marked@[start as int] {
                        assert(start != x);
                    }
                }
            } else {
                proof {
                    assert forall|y: int, p: int|
                        0 <= y < n && marked@[y] && 0 <= p < sv[y].len() implies marked@[#[trigger] sv[y][p] as int]
                            || stack@.contains(sv[y][p]) by {
                        let t = sv[y][p];
                        if !marked@[t as int] {
                            assert(st0.contains(t));
                            let k = choose|k: int| 0 <= k < st0.len() && st0[k] == t;
                            if k < st1.len() {
                                assert(stack@[k] == t);
                            }
                        }
                    }
                }
            }
        }
        proof {
            assert(marked@[start as int]);
            assert forall|j: int| 0 <= j < marked@.len() implies (#[trigger] marked@[j] <==> reaches(sv, start as int, j)) by {
                if reaches(sv, start as int, j) {
                    let p = choose|p: Seq<int>| #[trigger] walk_from_to(sv, p, start as int, j);
                    lemma_closed_holds_walk(sv, marked@, p, p.len() - 1);
                }
            }
        }
        marked
    }
}

/// Two walks joined at their common end.
proof fn lemma_walk_concat(succ: Seq<Seq<usize>>, p1: Seq<int>, p2: Seq<int>, a: int, b: int, c: int)
    requires
        walk_from_to(succ, p1, a, b),
        walk_from_to(succ, p2, b, c),
    ensures
        walk_from_to(succ, p1 + p2.skip(1), a, c),
        (p1 + p2.skip(1)).len() == p1.len() + p2.len() - 1,
{
    let p = p1 + p2.skip(1);
    assert forall|i: int| 0 <= i < p.len() - 1 implies edge_to(succ, #[trigger] p[i], p[i + 1]) by {
        if i < p1.len() - 1 {
            assert(p[i] == p1[i] && p[i + 1] == p1[i + 1]);
            assert(edge_to(succ, p1[i], p1[i + 1]));
        } else {
            let j = i - p1.len() + 1;
            assert(p[i] == p2[j]) by {
                if i == p1.len() - 1 {
                    assert(p[i] == p1.last());
                }
            }
            assert(p[i + 1] == p2[j + 1]);
            assert(edge_to(succ, p2[j], p2[j + 1]));
        }
    }
    if p2.len() > 1 {
        assert(p.last() == p2.last());
    } else {
        assert(p =~= p1);
    }
}

/// No two distinct nodes reach each other: the only cycles are edges from
/// a node to itself.
pub open spec fn loops_only(succ: Seq<Seq<usize>>) -> bool {
    forall|a: int, b: int|
        #![trigger reaches(succ, a, b), reaches(succ, b, a)]
        a != b && reaches(succ, a, b) ==> !reaches(succ, b, a)
}

/// In a graph whose only cycles are self-loops, a node reached from `i`
/// (other than `i`) reaches only nodes that `i` reaches, never `i` itself.
proof fn lemma_reach_narrows(succ: Seq<Seq<usize>>, i: int, d: int, j: int)
    requires
        loops_only(succ),
        reaches(succ, i, d),
        d != i,
        reaches(succ, d, j),
    ensures
        reaches(succ, i, j),
        j != i,
{
    let p1 = choose|p: Seq<int>| #[trigger] walk_from_to(succ, p, i, d);
    let p2 = choose|p: Seq<int>| #[trigger] walk_from_to(succ, p, d, j);
    lemma_walk_concat(succ, p1, p2, i, d, j);
    let p = p1 + p2.skip(1);
    assert(walk_from_to(succ, p, i, j));
    if j == i {
        assert(reaches(succ, d, i));
    }
}

/// A graph without cycles has no cycle through two distinct nodes.
pub proof fn lemma_acyclic_loops_only(succ: Seq<Seq<usize>>)
    requires
        acyclic(succ),
    ensures
        loops_only(succ),
{
    assert forall|a: int, b: int| a != b && reaches(succ, a, b) implies !reaches(succ, b, a) by {
        if reaches(succ, b, a) {
            let p1 = choose|p: Seq<int>| #[trigger] walk_from_to(succ, p, a, b);
            let p2 = choose|p: Seq<int>| #[trigger] walk_from_to(succ, p, b, a);
            lemma_walk_concat(succ, p1, p2, a, b, a);
            let p = p1 + p2.skip(1);
            assert(walk_from_to(succ, p, a, a));
            assert(p1.len() >= 2) by {
                if p1.len() == 1 {
                    assert(p1[0] == p1.last());
                }
            }
            assert(is_walk(succ, p) && p.len() >= 2);
            assert(p[0] != p.last());
        }
    }
}

/// The number of nodes `j < upto`, other than `i`, that `i` reaches.
pub open spec fn count_deps(succ: Seq<Seq<usize>>, i: int, upto: int) -> nat
    decreases upto,
{
    if upto <= 0 {
        0
    } else {
        count_deps(succ, i, upto - 1) + (if reaches(succ, i, upto - 1) && upto - 1 != i {
            1nat
        } else {
            0nat
        })
    }
}

/// A node reached from `i` has fewer dependencies than `i`.
proof fn lemma_count_deps_narrows(succ: Seq<Seq<usize>>, i: int, d: int, upto: int)
    requires
        loops_only(succ),
        reaches(succ, i, d),
        d != i,
        0 <= upto,
        0 <= d,
    ensures
        count_deps(succ, d, upto) <= count_deps(succ, i, upto),
        d < upto ==> count_deps(succ, d, upto) < count_deps(succ, i, upto),
    decreases upto,
{
    if upto > 0 {
        lemma_count_deps_narrows(succ, i, d, upto - 1);
        let j = upto - 1;
        if reaches(succ, d, j) && j != d {
            lemma_reach_narrows(succ, i, d, j);
        }
        if j == d {
            assert(reaches(succ, i, j) && j != i);
        }
        let ld: nat = if reaches(succ, d, j) && j != d { 1 } else { 0 };
        let li: nat = if reaches(succ, i, j) && j != i { 1 } else { 0 };
        assert(count_deps(succ, d, upto) == count_deps(succ, d, upto - 1) + ld);
        assert(count_deps(succ, i, upto) == count_deps(succ, i, upto - 1) + li);
        assert(ld <= li);
        if d == j {
            assert(ld == 0);
            assert(li == 1);
            assert(count_deps(succ, d, upto - 1) <= count_deps(succ, i, upto - 1));
        } else if d < j {
            assert(count_deps(succ, d, upto - 1) < count_deps(succ, i, upto - 1));
        }
    }
}

impl GraphModel {
    /// The index of the node named `n` (any index when there is none).
    pub open spec fn index_of(self, n: Seq<char>) -> int {
        choose|i: int| 0 <= i < self.names.len() && self.names[i] == n
    }

    /// The successors of the node named `n`, in the order their edges were
    /// added (none for a name outside the graph).
    pub open spec fn successors(self, n: Seq<char>) -> Seq<Seq<char>> {
        if self.has_node(n) {
            self.succ[self.index_of(n)].map_values(|k: usize| self.names[k as int])
        } else {
            Seq::empty()
        }
    }

    /// Package `a` depends, directly or not, on package `b`, another node.
    pub open spec fn depends(self, a: Seq<char>, b: Seq<char>) -> bool {
        self.has_node(a) && self.has_node(b) && a != b && reaches(self.succ, self.index_of(a), self.index_of(b))
    }

    /// The number of dependencies of the node named `n`, zero for a name
    /// outside the graph.
    pub open spec fn dep_count(self, n: Seq<char>) -> nat {
        if self.has_node(n) {
            count_deps(self.succ, self.index_of(n), self.names.len() as int)
        } else {
            0
        }
    }
}

/// The measure of the ordering loop: the dependency count of the first
/// pending name.
pub open spec fn front_measure(g: GraphModel, pending: Seq<Seq<char>>) -> nat {
    if pending.len() == 0 {
        0
    } else {
        g.dep_count(pending[0])
    }
}

/// The order is complete and puts dependencies first: `ordered` holds
/// distinct graph nodes, each after all of its dependencies.
pub open spec fn deps_first(g: GraphModel, ordered: Seq<Seq<char>>) -> bool {
    &&& forall|p: int, q: int| 0 <= p < q < ordered.len() ==> #[trigger] ordered[p] != #[trigger] ordered[q]
    &&& forall|p: int| 0 <= p < ordered.len() ==> g.has_node(#[trigger] ordered[p])
    &&& forall|p: int, q: int| 0 <= p < q < ordered.len() ==> !g.depends(#[trigger] ordered[p], #[trigger] ordered[q])
}

/// Whether `v` holds the name `n`.
fn holds_name(v: &Vec<String>, n: &String) -> (b: bool)
    ensures
        b == names_view(v@).contains(n@),
{
    let mut i: usize = 0;
    while i < v.len()
        invariant
            i <= v@.len(),
            forall|k: int| 0 <= k < i ==> v@[k]@ != n@,
        decreases v.len() - i,
    {
        if v[i] == *n {
            assert(names_view(v@)[i as int] == n@);
            return true;
        }
        i = i + 1;
    }
    proof {
        if names_view(v@).contains(n@) {
            let k = choose|k: int| 0 <= k < names_view(v@).len() && names_view(v@)[k] == n@;
            assert(v@[k]@ == n@);
        }
    }
    false
}

impl DepGraph {
    /// For each node, the nodes it reaches (itself included), as rows of
    /// marks.
    fn accessibility(&self) -> (r: Vec<Vec<bool>>)
        ensures
            r@.len() == self@.names.len(),
            forall|i: int| 0 <= i < r@.len() ==> #[trigger] r@[i]@.len() == self@.names.len(),
            forall|i: int, j: int|
                0 <= i < r@.len() && 0 <= j < self@.names.len() ==> (#[trigger] r@[i]@[j] <==> reaches(self@.succ, i, j)),
    {
        let n = self.nodes.len();
        let mut rows: Vec<Vec<bool>> = Vec::new();
        let mut i: usize = 0;
        while i < n
            invariant
                i <= n,
                n == self@.names.len(),
                rows@.len() == i,
                forall|a: int| 0 <= a < i ==> #[trigger] rows@[a]@.len() == n,
                forall|a: int, j: int|
                    0 <= a < i && 0 <= j < n ==> (#[trigger] rows@[a]@[j] <==> reaches(self@.succ, a, j)),
            decreases n - i,
        {
            let row = self.reachable_from(i);
            rows.push(row);
            i = i + 1;
        }
        rows
    }

    /// Whether the graph has no cycle.
    pub open spec fn is_acyclic(&self) -> bool {
        acyclic(self@.succ)
    }

    /// Whether the graph's only cycles are edges from a node to itself.
    pub open spec fn only_self_loops(&self) -> bool {
        loops_only(self@.succ)
    }
}

/// With distinct names, the index of a name is where it is.
proof fn lemma_index_of(g: GraphModel, i: int)
    requires
        distinct_names(g.names),
        0 <= i < g.names.len(),
    ensures
        g.index_of(g.names[i]) == i,
        g.has_node(g.names[i]),
{
    assert(g.names.contains(g.names[i]));
    let k = g.index_of(g.names[i]);
    if k != i {
        if k < i {
            assert(g.names[k] != g.names[i]);
        } else {
            assert(g.names[i] != g.names[k]);
        }
    }
}

impl DepGraph {
    /// Whether some walk of one step or more comes back to where it
    /// started.
    pub fn has_cycle(&self) -> (b: bool)
        ensures
            b == !self.is_acyclic(),
    {
        proof {
            use_type_invariant(self);
        }
        let ghost g = self@;
        let access = self.accessibility();
        let n = self.nodes.len();
        let mut a: usize = 0;
        while a < n
            invariant
                a <= n,
                n == g.names.len(),
                g == self@,
                succ_wf(g.succ, n as nat),
                access@.len() == n,
                forall|i: int| 0 <= i < n ==> #[trigger] access@[i]@.len() == n,
                forall|i: int, j: int| 0 <= i < n && 0 <= j < n ==> (#[trigger] access@[i]@[j] <==> reaches(g.succ, i, j)),
                forall|x: int, q: int| 0 <= x < a && 0 <= q < g.succ[x].len() ==> !reaches(g.succ, #[trigger] g.succ[x][q] as int, x),
            decreases n - a,
        {
            let row = &self.succ[a];
            assert(g.succ[a as int] == row@);
            let mut q: usize = 0;
            while q < row.len()
                invariant
                    q <= row@.len(),
                    a < n,
                    n == g.names.len(),
                    g == self@,
                    g.succ[a as int] == row@,
                    succ_wf(g.succ, n as nat),
                    access@.len() == n,
                    forall|i: int| 0 <= i < n ==> #[trigger] access@[i]@.len() == n,
                    forall|i: int, j: int| 0 <= i < n && 0 <= j < n ==> (#[trigger] access@[i]@[j] <==> reaches(g.succ, i, j)),
                    forall|t: int| 0 <= t < q ==> !reaches(g.succ, #[trigger] g.succ[a as int][t] as int, a as int),
                decreases row.len() - q,
            {
                let b = row[q];
                assert(b < n);
                if access[b][a] {
                    proof {
                        assert(reaches(g.succ, b as int, a as int));
                        let pw = choose|pw: Seq<int>| #[trigger] walk_from_to(g.succ, pw, b as int, a as int);
                        let e = seq![a as int, b as int];
                        assert(edge_to(g.succ, a as int, b as int)) by {
                            assert(g.succ[a as int][q as int] as int == b as int);
                        }
                        assert(walk_from_to(g.succ, e, a as int, b as int)) by {
                            assert forall|i: int| 0 <= i < e.len() - 1 implies edge_to(g.succ, #[trigger] e[i], e[i + 1]) by {
                                assert(e[0] == a as int && e[1] == b as int);
                            }
                        }
                        lemma_walk_concat(g.succ, e, pw, a as int, b as int, a as int);
                        let c = e + pw.skip(1);
                        assert(is_walk(g.succ, c) && c.len() >= 2 && c[0] == c.last());
                    }
                    return true;
                }
                q = q + 1;
            }
            a = a + 1;
        }
        proof {
            assert forall|p: Seq<int>| #[trigger] is_walk(g.succ, p) && p.len() >= 2 implies p[0] != p.last() by {
                if p[0] == p.last() {
                    assert(edge_to(g.succ, p[0], p[1]));
                    let x = p[0];
                    let q = choose|q: int| 0 <= q < g.succ[x].len() && #[trigger] g.succ[x][q] as int == p[1];
                    let rest = p.skip(1);
                    assert(walk_from_to(g.succ, rest, p[1], x)) by {
                        assert forall|i: int| 0 <= i < rest.len() - 1 implies edge_to(g.succ, #[trigger] rest[i], rest[i + 1]) by {
                            assert(rest[i] == p[i + 1] && rest[i + 1] == p[i + 2]);
                            assert(edge_to(g.succ, p[i + 1], p[i + 2]));
                        }
                    }
                    assert(reaches(g.succ, g.succ[x][q] as int, x));
                }
            }
        }
        false
    }

    /// The nodes in an order as close to `node_list` as possible, with
    /// every package after the packages it depends on; names of the list
    /// that are not in the graph are left out, and the graph's other nodes
    /// follow in name order.
    pub fn dependency_order(&self, node_list: &[String]) -> (r: Vec<String>)
        requires
            self.only_self_loops(),
        ensures
            deps_first(self@, names_view(r@)),
            forall|p: int, q: int| 0 <= p < q < r@.len() ==> r@[p]@ != r@[q]@,
            forall|p: int| 0 <= p < r@.len() ==> self@.has_node(#[trigger] r@[p]@),
            forall|x: Seq<char>| #[trigger] self@.has_node(x) ==> names_view(r@).contains(x),
    {
        proof {
            use_type_invariant(self);
        }
        let ghost g = self@;
        let access = self.accessibility();
        let n = self.nodes.len();
        // the requested names, then the other nodes in name order
        let mut list: Vec<String> = Vec::new();
        let mut i: usize = 0;
        while i < node_list.len()
            invariant
                i <= node_list@.len(),
                names_view(list@) == names_view(node_list@.take(i as int)),
            decreases node_list.len() - i,
        {
            let ghost before = list@;
            list.push(node_list[i].clone());
            assert(names_view(list@) =~= names_view(before).push(node_list@[i as int]@));
            assert(node_list@.take(i + 1) =~= node_list@.take(i as int).push(node_list@[i as int]));
            assert(names_view(node_list@.take(i + 1)) =~= names_view(node_list@.take(i as int)).push(node_list@[i as int]@));
            i = i + 1;
        }
        let mut extra: Vec<usize> = Vec::new();
        let mut j: usize = 0;
        while j < n
            invariant
                j <= n,
                n == g.names.len(),
                g == self@,
                forall|k: int| 0 <= k < extra@.len() ==> (#[trigger] extra@[k]) < n,
                forall|v: int| 0 <= v < j ==> names_view(list@).contains(#[trigger] g.names[v]) || extra@.contains(v as usize),
            decreases n - j,
        {
            assert(g.names[j as int] == self.nodes@[j as int]@);
            if !holds_name(&list, &self.nodes[j]) {
                let ghost before = extra@;
                extra.push(j);
                proof {
                    assert forall|v: int| 0 <= v < j + 1 implies names_view(list@).contains(#[trigger] g.names[v]) || extra@.contains(v as usize) by {
                        if v < j && !names_view(list@).contains(g.names[v]) {
                            let k = choose|k: int| 0 <= k < before.len() && before[k] == v as usize;
                            assert(extra@[k] == v as usize);
                        }
                        if v == j {
                            assert(extra@[before.len() as int] == j);
                        }
                    }
                }
            }
            j = j + 1;
        }
        let sorted = sort_by_name(&extra, &self.nodes);
        proof {
            assert forall|v: int| 0 <= v < n implies names_view(list@).contains(#[trigger] g.names[v]) || sorted@.contains(v as usize) by {
                if extra@.contains(v as usize) {
                    vstd::seq_lib::to_multiset_contains(extra@, v as usize);
                    vstd::seq_lib::to_multiset_contains(sorted@, v as usize);
                }
            }
        }
        let mut nodes = list;
        let ghost base = names_view(nodes@);
        let mut k: usize = 0;
        while k < sorted.len()
            invariant
                k <= sorted@.len(),
                n == g.names.len(),
                g == self@,
                g.names == names_view(self.nodes@),
                forall|q: int| 0 <= q < sorted@.len() ==> (#[trigger] sorted@[q]) < n,
                forall|q: int| 0 <= q < k ==> names_view(nodes@).contains(#[trigger] g.names[sorted@[q] as int]),
                names_view(nodes@).len() >= base.len(),
                forall|q: int| 0 <= q < base.len() ==> names_view(nodes@)[q] == #[trigger] base[q],
            decreases sorted.len() - k,
        {
            let ghost before = names_view(nodes@);
            let x = sorted[k];
            nodes.push(self.nodes[x].clone());
            proof {
                let nv = names_view(nodes@);
                assert(nv =~= before.push(g.names[x as int]));
                assert forall|q: int| 0 <= q < k + 1 implies nv.contains(#[trigger] g.names[sorted@[q] as int]) by {
                    if q < k {
                        let t = choose|t: int| 0 <= t < before.len() && before[t] == g.names[sorted@[q] as int];
                        assert(nv[t] == before[t]);
                    } else {
                        assert(nv[before.len() as int] == g.names[x as int]);
                    }
                }
            }
            k = k + 1;
        }
        proof {
            assert forall|x: Seq<char>| #[trigger] g.has_node(x) implies names_view(nodes@).contains(x) by {
                let v = choose|v: int| 0 <= v < g.names.len() && g.names[v] == x;
                if base.contains(x) {
                    let t = choose|t: int| 0 <= t < base.len() && base[t] == x;
                    assert(names_view(nodes@)[t] == base[t]);
                } else {
                    assert(sorted@.contains(v as usize));
                    let q = choose|q: int| 0 <= q < sorted@.len() && sorted@[q] == v as usize;
                    assert(names_view(nodes@).contains(g.names[sorted@[q] as int]));
                }
            }
        }
        let mut ordered: Vec<String> = Vec::new();
        while nodes.len() > 0
            invariant
                g == self@,
                n == g.names.len(),
                g.names == names_view(self.nodes@),
                distinct_names(g.names),
                succ_wf(g.succ, n as nat),
                loops_only(g.succ),
                access@.len() == n,
                forall|a: int| 0 <= a < n ==> #[trigger] access@[a]@.len() == n,
                forall|a: int, b: int| 0 <= a < n && 0 <= b < n ==> (#[trigger] access@[a]@[b] <==> reaches(g.succ, a, b)),
                forall|x: Seq<char>| #[trigger] g.has_node(x) ==> names_view(ordered@).contains(x) || names_view(nodes@).contains(x),
                forall|p: int, q: int| 0 <= p < q < ordered@.len() ==> #[trigger] names_view(ordered@)[p] != #[trigger] names_view(ordered@)[q],
                forall|p: int| 0 <= p < ordered@.len() ==> g.has_node(#[trigger] names_view(ordered@)[p]),
                forall|p: int, x: Seq<char>| 0 <= p < ordered@.len() && #[trigger] g.depends(names_view(ordered@)[p], x) ==> names_view(ordered@).take(p).contains(x),
            decreases nodes@.len(), front_measure(g, names_view(nodes@)),
        {
            let ghost nv0 = names_view(nodes@);
            let ghost ov0 = names_view(ordered@);
            let front = nodes[0].clone();
            assert(front@ == nv0[0]);
            if holds_name(&ordered, &front) {
                nodes.remove(0);
                proof {
                    assert(names_view(nodes@) =~= nv0.subrange(1, nv0.len() as int));
                    assert forall|x: Seq<char>| #[trigger] g.has_node(x) implies names_view(ordered@).contains(x) || names_view(nodes@).contains(x) by {
                        if !ov0.contains(x) {
                            let t = choose|t: int| 0 <= t < nv0.len() && nv0[t] == x;
                            if t == 0 {
                                assert(x == front@);
                            } else {
                                assert(names_view(nodes@)[t - 1] == x);
                            }
                        }
                    }
                }
            } else {
                match index_of(&self.nodes, front.as_str()) {
                    None => {
                        nodes.remove(0);
                        proof {
                            assert(names_view(nodes@) =~= nv0.subrange(1, nv0.len() as int));
                            assert forall|x: Seq<char>| #[trigger] g.has_node(x) implies names_view(ordered@).contains(x) || names_view(nodes@).contains(x) by {
                                if !ov0.contains(x) {
                                    let t = choose|t: int| 0 <= t < nv0.len() && nv0[t] == x;
                                    if t == 0 {
                                        let v = choose|v: int| 0 <= v < g.names.len() && g.names[v] == x;
                                        assert(self.nodes@[v]@ == front@);
                                    } else {
                                        assert(names_view(nodes@)[t - 1] == x);
                                    }
                                }
                            }
                        }
                    },
                    Some(fi) => {
                        proof {
                            lemma_index_of(g, fi as int);
                            assert(g.names[fi as int] == front@);
                        }
                        let mut i: usize = 1;
                        let mut moved = false;
                        while i < nodes.len()
                            invariant_except_break
                                !moved,
                                names_view(nodes@) == nv0,
                                forall|t: int| 1 <= t < i ==> !g.depends(front@, #[trigger] nv0[t]),
                            invariant
                                1 <= i <= nv0.len(),
                                fi < n,
                                g == self@,
                                n == g.names.len(),
                                g.names == names_view(self.nodes@),
                                distinct_names(g.names),
                                succ_wf(g.succ, n as nat),
                                loops_only(g.succ),
                                access@.len() == n,
                                forall|a: int| 0 <= a < n ==> #[trigger] access@[a]@.len() == n,
                                forall|a: int, b: int| 0 <= a < n && 0 <= b < n ==> (#[trigger] access@[a]@[b] <==> reaches(g.succ, a, b)),
                                g.names[fi as int] == front@,
                                nv0.len() > 0,
                                nv0[0] == front@,
                                ov0 == names_view(ordered@),
                                forall|x: Seq<char>| #[trigger] g.has_node(x) ==> ov0.contains(x) || nv0.contains(x),
                            ensures
                                moved ==> names_view(nodes@).len() == nv0.len() && front_measure(g, names_view(nodes@)) < front_measure(g, nv0)
                                    && forall|x: Seq<char>| #[trigger] g.has_node(x) ==> ov0.contains(x) || names_view(nodes@).contains(x),
                                !moved ==> names_view(nodes@) == nv0 && forall|t: int| 1 <= t < nv0.len() ==> !g.depends(front@, #[trigger] nv0[t]),
                            decreases nv0.len() - i,
                        {
                            assert(nv0[i as int] == nodes@[i as int]@);
                            match index_of(&self.nodes, nodes[i].as_str()) {
                                Some(jx) => {
                                    proof {
                                        lemma_index_of(g, jx as int);
                                    }
                                    if jx != fi && access[fi][jx] {
                                        let ghost s0 = nodes@;
                                        let dep = nodes.remove(i);
                                        nodes.insert(0, dep);
                                        moved = true;
                                        proof {
                                            let expected = seq![s0[i as int]] + s0.subrange(0, i as int) + s0.subrange(i + 1, s0.len() as int);
                                            assert(nodes@ =~= expected);
                                            let nv1 = names_view(nodes@);
                                            assert forall|t: int| 0 <= t < nv0.len() implies nv1.contains(#[trigger] nv0[t]) by {
                                                if t == i {
                                                    assert(nv1[0] == nv0[t]);
                                                } else if t < i {
                                                    assert(nv1[t + 1] == nv0[t]);
                                                } else {
                                                    assert(nv1[t] == nv0[t]);
                                                }
                                            }
                                            assert(nv1[0] == g.names[jx as int]);
                                            lemma_index_of(g, fi as int);
                                            lemma_count_deps_narrows(g.succ, fi as int, jx as int, n as int);
                                            assert(front_measure(g, nv1) < front_measure(g, nv0));
                                            assert forall|x: Seq<char>| #[trigger] g.has_node(x) implies ov0.contains(x) || nv1.contains(x) by {
                                                if !ov0.contains(x) {
                                                    let t = choose|t: int| 0 <= t < nv0.len() && nv0[t] == x;
                                                    assert(nv1.contains(nv0[t]));
                                                }
                                            }
                                        }
                                        break;
                                    }
                                    proof {
                                        if g.depends(front@, nv0[i as int]) {
                                            lemma_index_of(g, fi as int);
                                            assert(g.index_of(nv0[i as int]) == jx);
                                            assert(g.index_of(front@) == fi);
                                        }
                                    }
                                },
                                None => {
                                    proof {
                                        if g.depends(front@, nv0[i as int]) {
                                            let v = choose|v: int| 0 <= v < g.names.len() && g.names[v] == nv0[i as int];
                                            assert(self.nodes@[v]@ == nodes@[i as int]@);
                                        }
                                    }
                                },
                            }
                            i = i + 1;
                        }
                        if !moved {
                            ordered.push(front);
                            nodes.remove(0);
                            proof {
                                let ov1 = names_view(ordered@);
                                let nv1 = names_view(nodes@);
                                assert(ov1 =~= ov0.push(front@));
                                assert(nv1 =~= nv0.subrange(1, nv0.len() as int));
                                assert(!ov0.contains(front@));
                                assert forall|x: Seq<char>| #[trigger] g.has_node(x) implies ov1.contains(x) || nv1.contains(x) by {
                                    if ov0.contains(x) {
                                        let t = choose|t: int| 0 <= t < ov0.len() && ov0[t] == x;
                                        assert(ov1[t] == x);
                                    } else {
                                        let t = choose|t: int| 0 <= t < nv0.len() && nv0[t] == x;
                                        if t == 0 {
                                            assert(ov1[ov0.len() as int] == x);
                                        } else {
                                            assert(nv1[t - 1] == x);
                                        }
                                    }
                                }
                                assert forall|p: int, q: int| 0 <= p < q < ov1.len() implies #[trigger] ov1[p] != #[trigger] ov1[q] by {
                                    if q == ov0.len() {
                                        assert(ov1[p] == ov0[p]);
                                        if ov0[p] == front@ {
                                            assert(ov0.contains(front@));
                                        }
                                    } else {
                                        assert(ov1[p] == ov0[p] && ov1[q] == ov0[q]);
                                    }
                                }
                                assert forall|p: int| 0 <= p < ov1.len() implies g.has_node(#[trigger] ov1[p]) by {
                                    if p < ov0.len() {
                                        assert(ov1[p] == ov0[p]);
                                    } else {
                                        assert(g.names[fi as int] == front@);
                                    }
                                }
                                assert forall|p: int, x: Seq<char>| 0 <= p < ov1.len() && #[trigger] g.depends(ov1[p], x) implies ov1.take(p).contains(x) by {
                                    if p < ov0.len() {
                                        assert(ov1[p] == ov0[p]);
                                        assert(ov0.take(p).contains(x));
                                        assert(ov1.take(p) =~= ov0.take(p));
                                    } else {
                                        // every dependency of `front` was ordered before it
                                        assert(ov1.take(p) =~= ov0);
                                        assert(g.has_node(x));
                                        if !ov0.contains(x) {
                                            assert(nv0.contains(x));
                                            let t = choose|t: int| 0 <= t < nv0.len() && nv0[t] == x;
                                            if t == 0 {
                                                assert(x == front@);
                                            } else {
                                                assert(!g.depends(front@, nv0[t]));
                                            }
                                        }
                                    }
                                }
                            }
                        }
                    },
                }
            }
        }
        proof {
            let ov = names_view(ordered@);
            assert forall|x: Seq<char>| #[trigger] g.has_node(x) implies ov.contains(x) by {
                if !ov.contains(x) {
                    assert(names_view(nodes@).contains(x));
                }
            }
            assert forall|p: int, q: int| 0 <= p < q < ov.len() implies !g.depends(#[trigger] ov[p], #[trigger] ov[q]) by {
                if g.depends(ov[p], ov[q]) {
                    assert(ov.take(p).contains(ov[q]));
                    let t = choose|t: int| 0 <= t < ov.take(p).len() && ov.take(p)[t] == ov[q];
                    assert(ov[t] == ov[q]);
                }
            }
            assert forall|p: int| 0 <= p < ordered@.len() implies #[trigger] ordered@[p]@ == ov[p] by {}
        }
        ordered
    }
}

impl DepGraph {
    /// The names of the direct successors of `node`, in the order their
    /// edges were added (none for a name outside the graph).
    pub fn successors(&self, node: &str) -> (r: Vec<String>)
        ensures
            forall|x: Seq<char>| names_view(r@).contains(x) <==> self@.has_edge(node@, x),
    {
        proof {
            use_type_invariant(self);
        }
        let ghost g = self@;
        match index_of(&self.nodes, node) {
            None => {
                proof {
                    assert forall|x: Seq<char>| !self@.has_edge(node@, x) by {
                        if self@.has_edge(node@, x) {
                            let (i, k) = choose|i: int, k: int| #[trigger] g.edge_at(i, k) && g.names[i] == node@ && g.names[g.succ[i][k] as int] == x;
                            assert(self.nodes@[i]@ == node@);
                        }
                    }
                }
                Vec::new()
            },
            Some(i) => {
                proof {
                    lemma_index_of(g, i as int);
                }
                assert(succ_view(self.succ@)[i as int] == self.succ@[i as int]@);
                let mut r: Vec<String> = Vec::new();
                let mut k: usize = 0;
                while k < self.succ[i].len()
                    invariant
                        g == self@,
                        i < g.names.len(),
                        g.names[i as int] == node@,
                        distinct_names(g.names),
                        succ_wf(g.succ, g.names.len()),
                        g.succ[i as int] == self.succ@[i as int]@,
                        g.names == names_view(self.nodes@),
                        k <= g.succ[i as int].len(),
                        names_view(r@) == Seq::new(k as nat, |q: int| g.names[g.succ[i as int][q] as int]),
                    decreases self.succ@[i as int]@.len() - k,
                {
                    let t = self.succ[i][k];
                    assert(t == g.succ[i as int][k as int]);
                    assert(t < g.names.len());
                    let ghost before = names_view(r@);
                    let name = self.nodes[t].clone();
                    assert(name@ == g.names[t as int]);
                    r.push(name);
                    assert(names_view(r@) =~= before.push(name@));
                    assert(names_view(r@) =~= Seq::new((k + 1) as nat, |q: int| g.names[g.succ[i as int][q] as int]));
                    k = k + 1;
                }
                proof {
                    let rv = names_view(r@);
                    assert forall|x: Seq<char>| rv.contains(x) <==> g.has_edge(node@, x) by {
                        if rv.contains(x) {
                            let q = choose|q: int| 0 <= q < rv.len() && rv[q] == x;
                            assert(g.edge_at(i as int, q));
                        }
                        if g.has_edge(node@, x) {
                            let (a, q) = choose|a: int, q: int| #[trigger] g.edge_at(a, q) && g.names[a] == node@ && g.names[g.succ[a][q] as int] == x;
                            lemma_index_of(g, a);
                            assert(a == i);
                            assert(rv[q] == x);
                        }
                    }
                }
                r
            },
        }
    }
}

} // verus!
