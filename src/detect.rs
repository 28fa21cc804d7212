//! Cycle detection by an iterative depth-first traversal.
//!
//! Every key of the graph is a root, in key order, so a cycle is found
//! wherever it lies. The traversal keeps an explicit stack of frames (a node
//! and the position of its next successor to examine) beside the path of
//! nodes from the root. A successor already on the path closes a cycle: the
//! suffix of the path from that successor on. Nodes whose successors were all
//! examined without finding a cycle are marked finished and not entered again;
//! nothing reachable from them can close a cycle with the current path.
use vstd::prelude::*;
use crate::graph::{Graph, GraphView, Node};

verus! {

/// The outcome of a search: no cycle, or one cycle in walk order.
#[derive(Debug, PartialEq, Eq)]
pub enum CycleResult {
    NoCycle,
    Cycle(Vec<Node>),
}

const WHITE: u8 = 0;

const GRAY: u8 = 1;

const BLACK: u8 = 2;

/// Every key equal to `v` is finished; in particular a node that is not a key.
spec fn finished(g: GraphView, color: Seq<u8>, v: Node) -> bool {
    forall|m: int| 0 <= m < g.keys.len() && g.keys[m] == v ==> color[m] == BLACK
}

/// The successors of a finished key are finished before it.
spec fn finish_order(g: GraphView, color: Seq<u8>, rank: Seq<int>) -> bool {
    forall|k: int, j: int, m: int|
        #![trigger color[k], g.succs[k][j], g.keys[m]]
        0 <= k < g.keys.len() && color[k] == BLACK && 0 <= j < g.succs[k].len() && 0 <= m
            < g.keys.len() && g.keys[m] == g.succs[k][j] ==> color[m] == BLACK && rank[m]
            < rank[k]
}

spec fn count_white(s: Seq<u8>) -> nat
    decreases s.len(),
{
    if s.len() == 0 {
        0
    } else {
        count_white(s.drop_last()) + if s.last() == WHITE {
            1nat
        } else {
            0nat
        }
    }
}

proof fn lemma_count_white_update(s: Seq<u8>, k: int, x: u8)
    requires
        0 <= k < s.len(),
    ensures
        count_white(s.update(k, x)) + (if s[k] == WHITE {
            1int
        } else {
            0int
        }) == count_white(s) + (if x == WHITE {
            1int
        } else {
            0int
        }),
    decreases s.len(),
{
    let t = s.update(k, x);
    if k < s.len() - 1 {
        assert(t.drop_last() =~= s.drop_last().update(k, x));
        lemma_count_white_update(s.drop_last(), k, x);
    } else {
        assert(t.drop_last() =~= s.drop_last());
    }
}

/// Successors not yet examined on the stack, plus one per frame.
spec fn pending(g: GraphView, path: Seq<usize>, next: Seq<usize>) -> nat
    decreases path.len(),
{
    if path.len() == 0 || next.len() == 0 {
        0
    } else {
        pending(g, path.drop_last(), next.drop_last()) + if next.last()
            <= g.succs[path.last() as int].len() {
            (g.succs[path.last() as int].len() - next.last() + 1) as nat
        } else {
            0nat
        }
    }
}

/// A key with itself among its successors, if there is one.
fn find_self_loop(g: &Graph) -> (r: Option<Node>)
    requires
        g@.wf(),
    ensures
        match r {
            Some(u) => g@.has_edge(u, u),
            None => !g@.has_self_loop(),
        },
{
    let n = g.len();
    let mut i: usize = 0;
    while i < n
        invariant
            n == g@.keys.len(),
            g@.wf(),
            i <= n,
            forall|a: int, b: int|
                0 <= a < i && 0 <= b < g@.succs[a].len() ==> #[trigger] g@.succs[a][b]
                    != g@.keys[a],
        decreases n - i,
    {
        let list = g.successors(i);
        let u = g.key(i);
        let mut j: usize = 0;
        while j < list.len()
            invariant
                n == g@.keys.len(),
                g@.wf(),
                i < n,
                list@ == g@.succs[i as int],
                u == g@.keys[i as int],
                j <= list@.len(),
                forall|b: int| 0 <= b < j ==> list@[b] != u,
            decreases list@.len() - j,
        {
            if list[j] == u {
                assert(g@.succs[i as int][j as int] == u && g@.keys[i as int] == u);
                return Some(u);
            }
            j += 1;
        }
        i += 1;
    }
    assert forall|u: Node| !g@.has_edge(u, u) by {
        if g@.has_edge(u, u) {
            let (a, b) = choose|a: int, b: int|
                #![trigger g@.keys[a], g@.succs[a][b]]
                0 <= a < g@.keys.len() && g@.keys[a] == u && 0 <= b < g@.succs[a].len()
                    && g@.succs[a][b] == u;
            assert(g@.succs[a][b] != g@.keys[a]);
        }
    }
    None
}

proof fn lemma_finished_update(g: GraphView, color: Seq<u8>, m: int, x: u8)
    requires
        color.len() == g.keys.len(),
        0 <= m < color.len(),
        color[m] != BLACK || x == BLACK,
    ensures
        forall|v: Node| #[trigger] finished(g, color, v) ==> finished(g, color.update(m, x), v),
{
    assert forall|v: Node| #[trigger] finished(g, color, v) implies finished(g, color.update(m, x), v) by {
        assert forall|q: int| 0 <= q < g.keys.len() && g.keys[q] == v implies color.update(m, x)[q] == BLACK by {
            assert(color[q] == BLACK);
        }
    }
}

proof fn lemma_finish_order_gray(g: GraphView, color: Seq<u8>, rank: Seq<int>, m: int)
    requires
        finish_order(g, color, rank),
        color.len() == g.keys.len(),
        0 <= m < color.len(),
        color[m] != BLACK,
    ensures
        finish_order(g, color.update(m, GRAY), rank),
{
    let c2 = color.update(m, GRAY);
    assert forall|k: int, j: int, q: int|
        #![trigger c2[k], g.succs[k][j], g.keys[q]]
        0 <= k < g.keys.len() && c2[k] == BLACK && 0 <= j < g.succs[k].len() && 0 <= q
            < g.keys.len() && g.keys[q] == g.succs[k][j] implies c2[q] == BLACK && rank[q]
        < rank[k] by {
        assert(color[k] == BLACK);
        assert(color[q] == BLACK);
    }
}

/// The nodes at the given key positions.
spec fn nodes_at(g: GraphView, path: Seq<usize>) -> Seq<Node> {
    path.map_values(|k: usize| g.keys[k as int])
}

/// The nodes of `path` from the position of `m` to the end: a cycle, where an
/// edge leads from the last node of the path back to `m`'s node.
fn cycle_on_path(g: &Graph, path: &Vec<usize>, next: &Vec<usize>, m: usize) -> (c: Vec<Node>)
    requires
        g@.wf(),
        path@.len() == next@.len(),
        path@.len() > 0,
        path@.no_duplicates(),
        forall|i: int| 0 <= i < path@.len() ==> path@[i] < g@.keys.len(),
        forall|i: int| 0 <= i < path@.len() ==> next@[i] <= g@.succs[path@[i] as int].len(),
        forall|i: int|
            0 <= i < path@.len() - 1 ==> next@[i] >= 1 && g@.keys[path@[i + 1] as int]
                == g@.succs[path@[i] as int][next@[i] - 1],
        path@.contains(m),
        next@.last() < g@.succs[path@.last() as int].len(),
        g@.succs[path@.last() as int][next@.last() as int] == g@.keys[m as int],
    ensures
        g@.is_cycle(c@),
{
    let mut p: usize = 0;
    while p < path.len() && path[p] != m
        invariant
            p <= path@.len(),
            path@.contains(m),
            forall|q: int| 0 <= q < p ==> path@[q] != m,
        decreases path@.len() - p,
    {
        p += 1;
    }
    if p == path.len() {
        let ghost q = choose|q: int| 0 <= q < path@.len() && path@[q] == m;
        assert(path@[q] != m);
    }
    let mut c: Vec<Node> = Vec::new();
    let mut q: usize = p;
    while q < path.len()
        invariant
            g@.wf(),
            p <= q <= path@.len(),
            forall|i: int| 0 <= i < path@.len() ==> path@[i] < g@.keys.len(),
            c@ == nodes_at(g@, path@.subrange(p as int, q as int)),
        decreases path@.len() - q,
    {
        c.push(g.key(path[q]));
        q += 1;
        assert(c@ =~= nodes_at(g@, path@.subrange(p as int, q as int)));
    }
    let ghost len = path@.len();
    assert forall|a: int, b: int| 0 <= a < c@.len() && 0 <= b < c@.len() && a != b implies c@[a]
        != c@[b] by {
        assert(path@[p + a] != path@[p + b]);
    }
    assert forall|a: int| 0 <= a < c@.len() - 1 implies g@.has_edge(#[trigger] c@[a], c@[a + 1]) by {
        let i = p + a;
        assert(next@[i] >= 1 && g@.keys[path@[i + 1] as int] == g@.succs[path@[i] as int][next@[i] - 1]);
        let k = path@[i] as int;
        let j = next@[i] - 1;
        assert(c@[a] == g@.keys[k]);
        assert(c@[a + 1] == g@.keys[path@[i + 1] as int]);
        assert(g@.keys[k] == c@[a] && g@.succs[k][j] == c@[a + 1]);
    }
    let ghost k = path@[len - 1] as int;
    let ghost j = next@[len - 1] as int;
    assert(g@.keys[k] == c@.last() && g@.succs[k][j] == c@[0]);
    c
}

/// `r` is a correct answer for `g`: no cycle exactly when `g` has none, and
/// otherwise one of its cycles, a single node when `g` has a self-loop.
pub open spec fn answers(g: GraphView, r: CycleResult) -> bool {
    &&& match r {
        CycleResult::NoCycle => !g.has_cycle(),
        CycleResult::Cycle(c) => g.is_cycle(c@),
    }
    &&& g.has_self_loop() ==> (r matches CycleResult::Cycle(c) && c@.len() == 1)
}

/// Two correct answers for one graph agree on whether it has a cycle, and on
/// the cycle's length where the graph has a self-loop.
pub proof fn lemma_same_verdict(g: GraphView, r1: CycleResult, r2: CycleResult)
    requires
        answers(g, r1),
        answers(g, r2),
    ensures
        (r1 is NoCycle) == (r2 is NoCycle),
        g.has_self_loop() ==> r1->Cycle_0@.len() == r2->Cycle_0@.len(),
{
    if let CycleResult::Cycle(c) = r1 {
        assert(g.is_cycle(c@));
    }
    if let CycleResult::Cycle(c) = r2 {
        assert(g.is_cycle(c@));
    }
}

/// Where `u` is the one node with an edge to itself, the answer is the cycle
/// made of `u` alone.
pub proof fn lemma_self_loop_answer(g: GraphView, r: CycleResult, u: Node)
    requires
        answers(g, r),
        g.has_edge(u, u),
        forall|w: Node| #[trigger] g.has_edge(w, w) ==> w == u,
    ensures
        r matches CycleResult::Cycle(c) && c@ == seq![u],
{
    let c = r->Cycle_0;
    assert(g.has_edge(c@.last(), c@[0]));
    assert(c@ =~= seq![u]);
}

/// Searches every key for a cycle. A self-loop is reported at once, as a
/// cycle of one node; otherwise each key not yet finished is the root of a
/// depth-first traversal, and the first cycle met is returned.
pub fn detect_cycle(g: &Graph) -> (r: CycleResult)
    requires
        g@.wf(),
    ensures
        answers(g@, r),
{
    if let Some(u) = find_self_loop(g) {
        let c = vec![u];
        assert(c@.last() == u && c@[0] == u);
        return CycleResult::Cycle(c);
    }
    let n = g.len();
    let mut color: Vec<u8> = Vec::new();
    while color.len() < n
        invariant
            color@.len() <= n,
            forall|k: int| 0 <= k < color@.len() ==> color@[k] == WHITE,
        decreases n - color@.len(),
    {
        color.push(WHITE);
    }
    let ghost mut rank: Seq<int> = Seq::new(n as nat, |k: int| 0int);
    let ghost mut clock: int = 0;
    let mut root: usize = 0;
    while root < n
        invariant
            g@.wf(),
            !g@.has_self_loop(),
            n == g@.keys.len(),
            root <= n,
            color@.len() == n,
            rank.len() == n,
            forall|k: int| 0 <= k < n ==> color@[k] == WHITE || color@[k] == BLACK,
            forall|k: int| 0 <= k < root ==> color@[k] == BLACK,
            forall|k: int| 0 <= k < n && color@[k] == BLACK ==> 0 <= #[trigger] rank[k] < clock,
            clock >= 0,
            finish_order(g@, color@, rank),
        decreases n - root,
    {
        if color[root] == WHITE {
            let mut path: Vec<usize> = vec![root];
            let mut next: Vec<usize> = vec![0];
            proof {
                lemma_finish_order_gray(g@, color@, rank, root as int);
            }
            color.set(root, GRAY);
            assert(path@[0] == root);
            while path.len() > 0
                invariant
                    g@.wf(),
                    n == g@.keys.len(),
                    root < n,
                    color@.len() == n,
                    rank.len() == n,
                    color@[root as int] != WHITE,
                    forall|k: int| 0 <= k < root ==> color@[k] == BLACK,
                    forall|k: int|
                        0 <= k < n ==> color@[k] == WHITE || color@[k] == GRAY || color@[k]
                            == BLACK,
                    forall|k: int|
                        0 <= k < n && color@[k] == BLACK ==> 0 <= #[trigger] rank[k] < clock,
                    clock >= 0,
                    !g@.has_self_loop(),
                    finish_order(g@, color@, rank),
                    path@.len() == next@.len(),
                    path@.no_duplicates(),
                    forall|i: int| 0 <= i < path@.len() ==> path@[i] < n,
                    forall|k: int| 0 <= k < n ==> (color@[k] == GRAY <==> path@.contains(k as usize)),
                    forall|i: int|
                        0 <= i < path@.len() ==> next@[i] <= g@.succs[path@[i] as int].len(),
                    forall|i: int|
                        0 <= i < path@.len() - 1 ==> next@[i] >= 1 && g@.keys[path@[i + 1] as int]
                            == g@.succs[path@[i] as int][next@[i] - 1],
                    forall|i: int, j: int|
                        0 <= i < path@.len() && 0 <= j < next@[i] && !(i < path@.len() - 1 && j
                            == next@[i] - 1) ==> finished(
                            g@,
                            color@,
                            #[trigger] g@.succs[path@[i] as int][j],
                        ),
                decreases count_white(color@), pending(g@, path@, next@),
            {
                let top = path.len() - 1;
                let u = path[top];
                let idx = next[top];
                let list = g.successors(u);
                let ghost p0 = path@;
                let ghost n0 = next@;
                let ghost c0 = color@;
                if idx < list.len() {
                    let v = list[idx];
                    let found = g.index_of(v);
                    if let Some(m) = found {
                        if color[m] == GRAY {
                            return CycleResult::Cycle(cycle_on_path(g, &path, &next, m));
                        }
                    }
                    next.set(top, idx + 1);
                    let ghost n1 = next@;
                    assert(n1.drop_last() =~= n0.drop_last());
                    assert(pending(g@, p0, n1) < pending(g@, p0, n0));
                    match found {
                        Some(m) if color[m] == WHITE => {
                            proof {
                                lemma_count_white_update(c0, m as int, GRAY);
                                lemma_finished_update(g@, c0, m as int, GRAY);
                                lemma_finish_order_gray(g@, c0, rank, m as int);
                            }
                            color.set(m, GRAY);
                            path.push(m);
                            next.push(0);
                            assert(!p0.contains(m));
                            assert forall|a: int, b: int|
                                0 <= a < path@.len() && 0 <= b < path@.len() && a != b implies path@[a]
                                != path@[b] by {
                                if a < p0.len() && b < p0.len() {
                                    assert(p0[a] != p0[b]);
                                } else if a < p0.len() {
                                    assert(p0.contains(p0[a]));
                                } else {
                                    assert(p0.contains(p0[b]));
                                }
                            }
                            assert forall|k: int| 0 <= k < n implies (color@[k] == GRAY
                                <==> path@.contains(k as usize)) by {
                                if path@.contains(k as usize) && k != m {
                                    let i = choose|i: int| 0 <= i < path@.len() && path@[i] == k as usize;
                                    assert(p0[i] == k);
                                }
                                if c0[k] == GRAY {
                                    let i = choose|i: int| 0 <= i < p0.len() && p0[i] == k as usize;
                                    assert(path@[i] == k);
                                }
                                if k == m {
                                    assert(path@[p0.len() as int] == m);
                                }
                            }
                            assert forall|i: int, j: int|
                                0 <= i < path@.len() && 0 <= j < next@[i] && !(i < path@.len() - 1
                                    && j == next@[i] - 1) implies finished(
                                g@,
                                color@,
                                #[trigger] g@.succs[path@[i] as int][j],
                            ) by {
                                assert(p0[i] == path@[i]);
                                assert(finished(g@, c0, g@.succs[p0[i] as int][j]));
                            }
                        },
                        _ => {
                            assert(finished(g@, c0, v)) by {
                                if let Some(m) = found {
                                    assert(c0[m as int] == BLACK);
                                }
                            }
                            assert forall|i: int, j: int|
                                0 <= i < path@.len() && 0 <= j < next@[i] && !(i < path@.len() - 1
                                    && j == next@[i] - 1) implies finished(
                                g@,
                                color@,
                                #[trigger] g@.succs[path@[i] as int][j],
                            ) by {
                                if i == top && j == idx {
                                    assert(g@.succs[path@[i] as int][j] == v);
                                }
                            }
                        },
                    }
                } else {
                    path.pop();
                    next.pop();
                    assert(path@ =~= p0.drop_last());
                    assert(next@ =~= n0.drop_last());
                    proof {
                        lemma_count_white_update(c0, u as int, BLACK);
                        lemma_finished_update(g@, c0, u as int, BLACK);
                    }
                    color.set(u, BLACK);
                    let ghost r0 = rank;
                    proof {
                        rank = rank.update(u as int, clock);
                        clock = clock + 1;
                    }
                    assert(!path@.contains(u)) by {
                        if path@.contains(u) {
                            let i = choose|i: int| 0 <= i < path@.len() && path@[i] == u;
                            assert(p0[i] == p0[top as int]);
                        }
                    }
                    assert forall|k: int, j: int, q: int|
                        #![trigger color@[k], g@.succs[k][j], g@.keys[q]]
                        0 <= k < g@.keys.len() && color@[k] == BLACK && 0 <= j < g@.succs[k].len()
                            && 0 <= q < g@.keys.len() && g@.keys[q] == g@.succs[k][j] implies color@[q]
                        == BLACK && rank[q] < rank[k] by {
                        if k == u {
                            assert(finished(g@, c0, g@.succs[p0[top as int] as int][j]));
                            assert(c0[q] == BLACK);
                        } else {
                            assert(c0[k] == BLACK);
                            assert(c0[q] == BLACK);
                        }
                    }
                    assert forall|k: int| 0 <= k < n implies (color@[k] == GRAY
                        <==> path@.contains(k as usize)) by {
                        if path@.contains(k as usize) {
                            let i = choose|i: int| 0 <= i < path@.len() && path@[i] == k as usize;
                            assert(p0[i] == k);
                        }
                        if c0[k] == GRAY && k != u {
                            let i = choose|i: int| 0 <= i < p0.len() && p0[i] == k as usize;
                            assert(i != top);
                            assert(path@[i] == k);
                        }
                    }
                    assert forall|i: int, j: int|
                        0 <= i < path@.len() && 0 <= j < next@[i] && !(i < path@.len() - 1 && j
                            == next@[i] - 1) implies finished(
                        g@,
                        color@,
                        #[trigger] g@.succs[path@[i] as int][j],
                    ) by {
                        assert(p0[i] == path@[i] && n0[i] == next@[i]);
                        if i == top - 1 && j == next@[i] - 1 {
                            assert(g@.succs[path@[i] as int][j] == g@.keys[u as int]);
                        } else {
                            assert(finished(g@, c0, g@.succs[p0[i] as int][j]));
                        }
                    }
                }
            }
            assert(color@[root as int] == BLACK) by {
                if color@[root as int] == GRAY {
                    assert(path@.contains(root));
                }
            }
            assert forall|k: int| 0 <= k < n implies color@[k] == WHITE || color@[k] == BLACK by {
                if color@[k] == GRAY {
                    assert(path@.contains(k as usize));
                }
            }
        }
        root += 1;
    }
    let ghost keys = g@.keys;
    let ghost order = |v: Node|
        if keys.contains(v) {
            -rank[choose|k: int| 0 <= k < keys.len() && keys[k] == v]
        } else {
            1
        };
    assert forall|a: Node, b: Node| #[trigger] g@.has_edge(a, b) implies order(a) < order(b) by {
        let (k, j) = choose|k: int, j: int|
            #![trigger g@.keys[k], g@.succs[k][j]]
            0 <= k < g@.keys.len() && g@.keys[k] == a && 0 <= j < g@.succs[k].len()
                && g@.succs[k][j] == b;
        assert(keys.contains(a));
        let ka = choose|k: int| 0 <= k < keys.len() && keys[k] == a;
        assert(ka == k);
        assert(color@[k] == BLACK);
        if keys.contains(b) {
            let kb = choose|k: int| 0 <= k < keys.len() && keys[k] == b;
            assert(g@.keys[kb] == g@.succs[k][j]);
            assert(rank[kb] < rank[k]);
        }
    }
    proof {
        crate::graph::lemma_topological_order_acyclic(g@, order);
    }
    CycleResult::NoCycle
}

} // verus!
