//! Directed graphs as ordered adjacency lists, built from a list of edges.
use vstd::prelude::*;

verus! {

/// A graph vertex, identified by one character.
#[derive(Clone, Copy, Debug, PartialEq, Eq, Hash, Structural)]
pub struct Node(pub char);

/// The mathematical model of a graph: the nodes that have successors, in the
/// order in which they first appeared as a source, each with its ordered list
/// of successors.
pub struct GraphView {
    pub keys: Seq<Node>,
    pub succs: Seq<Seq<Node>>,
}

impl GraphView {
    /// Keys are distinct and each has one successor list.
    pub open spec fn wf(self) -> bool {
        &&& self.keys.len() == self.succs.len()
        &&& self.keys.no_duplicates()
    }

    /// `v` is listed as a successor of `u`. A node that is not a key has no
    /// successors.
    pub open spec fn has_edge(self, u: Node, v: Node) -> bool {
        exists|i: int, j: int|
            #![trigger self.keys[i], self.succs[i][j]]
            0 <= i < self.keys.len() && self.keys[i] == u && 0 <= j < self.succs[i].len()
                && self.succs[i][j] == v
    }

    /// `c` is a closed walk that visits each of its nodes once: an edge leads
    /// from each node to the next, and from the last back to the first.
    pub open spec fn is_cycle(self, c: Seq<Node>) -> bool {
        &&& c.len() > 0
        &&& c.no_duplicates()
        &&& forall|i: int| 0 <= i < c.len() - 1 ==> self.has_edge(#[trigger] c[i], c[i + 1])
        &&& self.has_edge(c.last(), c[0])
    }

    pub open spec fn has_cycle(self) -> bool {
        exists|c: Seq<Node>| self.is_cycle(c)
    }

    pub open spec fn has_self_loop(self) -> bool {
        exists|u: Node| self.has_edge(u, u)
    }

    /// The graph of an edge list: keys are the distinct sources in order of
    /// first appearance, and each key's successors are the sinks of its edges
    /// in input order (duplicates kept).
    pub open spec fn from_edges(es: Seq<(Node, Node)>) -> GraphView {
        GraphView {
            keys: sources(es),
            succs: sources(es).map_values(|u: Node| sinks_from(es, u)),
        }
    }
}

/// The characters that name the nodes of `c`.
pub open spec fn chars_of(c: Seq<Node>) -> Seq<char> {
    c.map_values(|n: Node| n.0)
}

/// The distinct sources of `es`, in order of first appearance.
pub open spec fn sources(es: Seq<(Node, Node)>) -> Seq<Node>
    decreases es.len(),
{
    if es.len() == 0 {
        seq![]
    } else {
        let p = sources(es.drop_last());
        if p.contains(es.last().0) {
            p
        } else {
            p.push(es.last().0)
        }
    }
}

/// The sinks of the edges of `es` whose source is `u`, in order.
pub open spec fn sinks_from(es: Seq<(Node, Node)>, u: Node) -> Seq<Node>
    decreases es.len(),
{
    if es.len() == 0 {
        seq![]
    } else {
        let p = sinks_from(es.drop_last(), u);
        if es.last().0 == u {
            p.push(es.last().1)
        } else {
            p
        }
    }
}

proof fn lemma_push_contains(p: Seq<Node>, x: Node)
    ensures
        forall|v: Node| #[trigger] p.push(x).contains(v) <==> (p.contains(v) || v == x),
{
    assert forall|v: Node| #[trigger] p.push(x).contains(v) <==> (p.contains(v) || v == x) by {
        if p.push(x).contains(v) {
            let i = choose|i: int| 0 <= i < p.len() + 1 && p.push(x)[i] == v;
            if i < p.len() {
                assert(p[i] == v);
            }
        }
        if p.contains(v) {
            let i = choose|i: int| 0 <= i < p.len() && p[i] == v;
            assert(p.push(x)[i] == v);
        }
        if v == x {
            assert(p.push(x)[p.len() as int] == v);
        }
    }
}

/// Facts about `sources`: it lists each source of `es` once.
pub proof fn lemma_sources(es: Seq<(Node, Node)>)
    ensures
        sources(es).no_duplicates(),
        forall|u: Node|
            sources(es).contains(u) <==> exists|k: int| 0 <= k < es.len() && (#[trigger] es[k]).0 == u,
    decreases es.len(),
{
    if es.len() > 0 {
        let d = es.drop_last();
        lemma_sources(d);
        lemma_push_contains(sources(d), es.last().0);
        assert forall|u: Node|
            sources(es).contains(u) <==> exists|k: int| 0 <= k < es.len() && (#[trigger] es[k]).0 == u by {
            if sources(es).contains(u) {
                if sources(d).contains(u) {
                    let k = choose|k: int| 0 <= k < d.len() && (#[trigger] d[k]).0 == u;
                    assert(es[k] == d[k]);
                } else {
                    assert(es[es.len() - 1].0 == u);
                }
            }
            if exists|k: int| 0 <= k < es.len() && (#[trigger] es[k]).0 == u {
                let k = choose|k: int| 0 <= k < es.len() && (#[trigger] es[k]).0 == u;
                if k < es.len() - 1 {
                    assert(d[k] == es[k]);
                }
            }
        }
    }
}

/// Facts about `sinks_from`: it lists the sinks of the edges out of `u`.
pub proof fn lemma_sinks_from(es: Seq<(Node, Node)>, u: Node)
    ensures
        forall|v: Node|
            sinks_from(es, u).contains(v) <==> exists|k: int| 0 <= k < es.len() && #[trigger] es[k] == (u, v),
        !sources(es).contains(u) ==> sinks_from(es, u).len() == 0,
    decreases es.len(),
{
    lemma_sources(es);
    if es.len() > 0 {
        let d = es.drop_last();
        lemma_sinks_from(d, u);
        lemma_sources(d);
        lemma_push_contains(sinks_from(d, u), es.last().1);
        assert forall|v: Node|
            sinks_from(es, u).contains(v) <==> exists|k: int| 0 <= k < es.len() && #[trigger] es[k] == (u, v) by {
            if sinks_from(es, u).contains(v) {
                if sinks_from(d, u).contains(v) {
                    let k = choose|k: int| 0 <= k < d.len() && #[trigger] d[k] == (u, v);
                    assert(es[k] == d[k]);
                } else {
                    assert(es[es.len() - 1] == (u, v));
                }
            }
            if exists|k: int| 0 <= k < es.len() && #[trigger] es[k] == (u, v) {
                let k = choose|k: int| 0 <= k < es.len() && #[trigger] es[k] == (u, v);
                if k < es.len() - 1 {
                    assert(d[k] == es[k]);
                }
            }
        }
        if !sources(es).contains(u) {
            assert(es[es.len() - 1].0 != u);
            if sources(d).contains(u) {
                let k = choose|k: int| 0 <= k < d.len() && (#[trigger] d[k]).0 == u;
                assert(es[k] == d[k]);
            }
        }
    }
}

proof fn lemma_order_along_cycle(g: GraphView, order: spec_fn(Node) -> int, c: Seq<Node>, i: int)
    requires
        forall|u: Node, v: Node| #[trigger] g.has_edge(u, v) ==> order(u) < order(v),
        g.is_cycle(c),
        0 <= i < c.len(),
    ensures
        order(c[0]) + i <= order(c[i]),
    decreases i,
{
    if i > 0 {
        lemma_order_along_cycle(g, order, c, i - 1);
        assert(g.has_edge(c[i - 1], c[i]));
    }
}

/// A graph whose edges all lead forward in some numbering of its nodes (a
/// topological order) has no cycle.
pub proof fn lemma_topological_order_acyclic(g: GraphView, order: spec_fn(Node) -> int)
    requires
        forall|u: Node, v: Node| #[trigger] g.has_edge(u, v) ==> order(u) < order(v),
    ensures
        !g.has_cycle(),
{
    if g.has_cycle() {
        let c = choose|c: Seq<Node>| g.is_cycle(c);
        lemma_order_along_cycle(g, order, c, c.len() - 1);
        assert(g.has_edge(c.last(), c[0]));
    }
}

/// The graph of an edge list is well formed, and has an edge exactly where the
/// list has one.
pub proof fn lemma_from_edges(es: Seq<(Node, Node)>)
    ensures
        GraphView::from_edges(es).wf(),
        forall|u: Node, v: Node|
            #[trigger] GraphView::from_edges(es).has_edge(u, v) <==> exists|k: int|
                0 <= k < es.len() && es[k] == (u, v),
{
    let g = GraphView::from_edges(es);
    lemma_sources(es);
    assert forall|u: Node, v: Node|
        #[trigger] g.has_edge(u, v) <==> exists|k: int| 0 <= k < es.len() && es[k] == (u, v) by {
        lemma_sinks_from(es, u);
        if g.has_edge(u, v) {
            let (i, j) = choose|i: int, j: int|
                #![trigger g.keys[i], g.succs[i][j]]
                0 <= i < g.keys.len() && g.keys[i] == u && 0 <= j < g.succs[i].len()
                    && g.succs[i][j] == v;
            assert(sinks_from(es, u).contains(v));
        }
        if exists|k: int| 0 <= k < es.len() && es[k] == (u, v) {
            let k = choose|k: int| 0 <= k < es.len() && es[k] == (u, v);
            assert(es[k].0 == u);
            assert(sources(es).contains(u));
            let i = choose|i: int| 0 <= i < g.keys.len() && g.keys[i] == u;
            assert(sinks_from(es, u).contains(v));
            let j = choose|j: int| 0 <= j < g.succs[i].len() && g.succs[i][j] == v;
            assert(g.keys[i] == u && g.succs[i][j] == v);
        }
    }
}

/// A graph built from no edges has no cycle.
pub proof fn lemma_no_edges_acyclic()
    ensures
        !GraphView::from_edges(seq![]).has_cycle(),
{
    lemma_from_edges(seq![]);
    lemma_topological_order_acyclic(GraphView::from_edges(seq![]), |v: Node| 0int);
}

/// Every rotation of a cycle is a cycle: a cycle has no distinguished start.
pub proof fn lemma_rotation_is_cycle(g: GraphView, c: Seq<Node>, k: int)
    requires
        g.is_cycle(c),
        0 <= k < c.len(),
    ensures
        g.is_cycle(c.skip(k) + c.take(k)),
{
    let n = c.len() as int;
    let r = c.skip(k) + c.take(k);
    assert(r.len() == n);
    assert forall|i: int| 0 <= i < n implies #[trigger] r[i] == if i < n - k {
        c[i + k]
    } else {
        c[i + k - n]
    } by {}
    assert forall|a: int, b: int| 0 <= a < n && 0 <= b < n && a != b implies r[a] != r[b] by {
        let ia = if a < n - k { a + k } else { a + k - n };
        let ib = if b < n - k { b + k } else { b + k - n };
        assert(r[a] == c[ia] && r[b] == c[ib]);
    }
    assert forall|i: int| 0 <= i < n - 1 implies g.has_edge(#[trigger] r[i], r[i + 1]) by {
        assert(r[i] == if i < n - k { c[i + k] } else { c[i + k - n] });
        assert(r[i + 1] == if i + 1 < n - k { c[i + 1 + k] } else { c[i + 1 + k - n] });
        if i + 1 < n - k {
            assert(g.has_edge(c[i + k], c[i + k + 1]));
        } else if i + 1 == n - k {
            assert(g.has_edge(c.last(), c[0]));
        } else {
            assert(g.has_edge(c[i + k - n], c[i + k - n + 1]));
        }
    }
    assert(r[0] == c[k]);
    assert(r[n - 1] == if n - 1 < n - k { c[n - 1 + k] } else { c[k - 1] });
    if k > 0 {
        assert(g.has_edge(c[k - 1], c[k]));
    }
}

/// A directed graph: each key node with the ordered list of its successors.
/// Nodes that are not keys have no successors.
pub struct Graph {
    nodes: Vec<Node>,
    succs: Vec<Vec<Node>>,
}

impl View for Graph {
    type V = GraphView;

    closed spec fn view(&self) -> GraphView {
        GraphView { keys: self.nodes@, succs: self.succs@.map_values(|s: Vec<Node>| s@) }
    }
}

impl Graph {
    /// The number of key nodes.
    pub fn len(&self) -> (r: usize)
        ensures
            r == self@.keys.len(),
    {
        self.nodes.len()
    }

    /// The key node at position `i`.
    pub fn key(&self, i: usize) -> (r: Node)
        requires
            i < self@.keys.len(),
        ensures
            r == self@.keys[i as int],
    {
        self.nodes[i]
    }

    /// The successors of the key node at position `i`, in order.
    pub fn successors(&self, i: usize) -> (r: &Vec<Node>)
        requires
            self@.wf(),
            i < self@.keys.len(),
        ensures
            r@ == self@.succs[i as int],
    {
        &self.succs[i]
    }

    /// The roots of the traversal: every node with an outgoing edge, in order
    /// of first appearance as a source.
    pub fn roots(&self) -> (r: Vec<Node>)
        ensures
            r@ == self@.keys,
    {
        let mut r: Vec<Node> = Vec::new();
        let mut i: usize = 0;
        while i < self.nodes.len()
            invariant
                i <= self.nodes@.len(),
                r@ == self.nodes@.take(i as int),
            decreases self.nodes@.len() - i,
        {
            r.push(self.nodes[i]);
            i += 1;
            assert(r@ =~= self.nodes@.take(i as int));
        }
        assert(self.nodes@.take(i as int) =~= self.nodes@);
        r
    }

    /// The position of `v` among the keys, if it is one.
    pub fn index_of(&self, v: Node) -> (r: Option<usize>)
        ensures
            match r {
                Some(i) => i < self@.keys.len() && self@.keys[i as int] == v,
                None => !self@.keys.contains(v),
            },
    {
        let mut i: usize = 0;
        while i < self.nodes.len()
            invariant
                i <= self.nodes@.len(),
                forall|k: int| 0 <= k < i ==> self.nodes@[k] != v,
            decreases self.nodes@.len() - i,
        {
            if self.nodes[i] == v {
                return Some(i);
            }
            i += 1;
        }
        None
    }
}

/// Builds the graph of `edges`: one key per distinct source, in order of first
/// appearance, each with the sinks of its edges in input order. Self-loops and
/// repeated edges are kept.
pub fn build_graph(edges: &Vec<(Node, Node)>) -> (g: Graph)
    ensures
        g@ == GraphView::from_edges(edges@),
        g@.wf(),
{
    let ghost es = edges@;
    let mut g = Graph { nodes: Vec::new(), succs: Vec::new() };
    let mut k: usize = 0;
    while k < edges.len()
        invariant
            k <= es.len(),
            es == edges@,
            g.nodes@ == sources(es.take(k as int)),
            g.succs@.len() == g.nodes@.len(),
            forall|i: int|
                0 <= i < g.nodes@.len() ==> (#[trigger] g.succs@[i])@ == sinks_from(
                    es.take(k as int),
                    g.nodes@[i],
                ),
        decreases es.len() - k,
    {
        let (u, v) = edges[k];
        let ghost before = es.take(k as int);
        let ghost after = es.take(k + 1);
        assert(after.drop_last() =~= before);
        assert(after.last() == (u, v));
        proof {
            lemma_sources(before);
            lemma_sinks_from(before, u);
        }
        match g.index_of(u) {
            Some(i) => {
                let mut list = Vec::new();
                std::mem::swap(&mut list, &mut g.succs[i]);
                list.push(v);
                g.succs.set(i, list);
                assert forall|m: int|
                    0 <= m < g.nodes@.len() implies (#[trigger] g.succs@[m])@ == sinks_from(
                    after,
                    g.nodes@[m],
                ) by {
                    if m != i {
                        assert(g.nodes@[m] != u);
                    }
                }
            },
            None => {
                g.nodes.push(u);
                g.succs.push(vec![v]);
                assert(g.succs@.last()@ =~= sinks_from(after, u));
            },
        }
        k += 1;
    }
    assert(es.take(k as int) =~= es);
    proof {
        lemma_sources(es);
    }
    assert(g@.keys == sources(es));
    assert(g@.succs =~= GraphView::from_edges(es).succs);
    g
}

} // verus!
