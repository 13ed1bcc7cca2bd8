//! Directed graphs over the vertices `0..n`: adjacency lists, topological
//! order and weakly-connected components.

use vstd::prelude::*;

verus! {

/// `es` holds the edge `(u, v)`.
pub open spec fn has_edge(es: Seq<(usize, usize)>, u: usize, v: usize) -> bool {
    exists|i: int| 0 <= i < es.len() && es[i] == (u, v)
}

/// Every endpoint is a vertex below `n`.
pub open spec fn edges_within(n: nat, es: Seq<(usize, usize)>) -> bool {
    forall|i: int| 0 <= i < es.len() ==> (#[trigger] es[i]).0 < n && es[i].1 < n
}

/// `order` lists each vertex below `n` once, every edge going forward.
pub open spec fn is_topological_order(n: nat, es: Seq<(usize, usize)>, order: Seq<usize>) -> bool {
    &&& order.len() == n
    &&& forall|a: int| 0 <= a < n ==> #[trigger] order[a] < n
    &&& forall|v: usize| v < n ==> #[trigger] order.contains(v)
    &&& forall|a: int, b: int| 0 <= a < b < n ==> order[a] != order[b]
    &&& forall|i: int, a: int, b: int|
        0 <= i < es.len() && 0 <= a < n && 0 <= b < n && #[trigger] order[a] == (#[trigger] es[i]).0
            && #[trigger] order[b] == es[i].1 ==> a < b
}

/// The graph has no directed cycle: some topological order exists.
pub open spec fn is_acyclic(n: nat, es: Seq<(usize, usize)>) -> bool {
    exists|order: Seq<usize>| is_topological_order(n, es, order)
}

/// `u` and `v` are joined by an edge in one direction or the other.
pub open spec fn adjacent(es: Seq<(usize, usize)>, u: usize, v: usize) -> bool {
    has_edge(es, u, v) || has_edge(es, v, u)
}

/// `p` is a walk in the undirected version of the graph.
pub open spec fn is_walk(es: Seq<(usize, usize)>, p: Seq<usize>) -> bool {
    &&& p.len() >= 1
    &&& forall|i: int| 0 <= i < p.len() - 1 ==> adjacent(es, #[trigger] p[i], p[i + 1])
}

/// `u` and `v` are joined by a path when edge directions are ignored.
pub open spec fn connected(es: Seq<(usize, usize)>, u: usize, v: usize) -> bool {
    exists|p: Seq<usize>| is_walk(es, p) && p[0] == u && p.last() == v
}

pub proof fn lemma_connected_refl(es: Seq<(usize, usize)>, u: usize)
    ensures
        connected(es, u, u),
{
    let p = seq![u];
    assert(is_walk(es, p) && p[0] == u && p.last() == u);
}

pub proof fn lemma_connected_extend(es: Seq<(usize, usize)>, u: usize, v: usize, w: usize)
    requires
        connected(es, u, v),
        adjacent(es, v, w),
    ensures
        connected(es, u, w),
{
    let p = choose|p: Seq<usize>| is_walk(es, p) && p[0] == u && p.last() == v;
    let q = p.push(w);
    assert forall|i: int| 0 <= i < q.len() - 1 implies adjacent(es, #[trigger] q[i], q[i + 1]) by {
        if i < p.len() - 1 {
            assert(q[i] == p[i] && q[i + 1] == p[i + 1]);
        }
    }
    assert(is_walk(es, q) && q[0] == u && q.last() == w);
}

pub proof fn lemma_connected_symm(es: Seq<(usize, usize)>, u: usize, v: usize)
    requires
        connected(es, u, v),
    ensures
        connected(es, v, u),
{
    let p = choose|p: Seq<usize>| is_walk(es, p) && p[0] == u && p.last() == v;
    let q = Seq::new(p.len(), |i: int| p[p.len() - 1 - i]);
    assert forall|i: int| 0 <= i < q.len() - 1 implies adjacent(es, #[trigger] q[i], q[i + 1]) by {
        let j = p.len() - 2 - i;
        assert(adjacent(es, p[j], p[j + 1]));
        assert(q[i] == p[j + 1] && q[i + 1] == p[j]);
    }
    assert(is_walk(es, q) && q[0] == v && q.last() == u);
}

pub proof fn lemma_connected_trans(es: Seq<(usize, usize)>, u: usize, v: usize, w: usize)
    requires
        connected(es, u, v),
        connected(es, v, w),
    ensures
        connected(es, u, w),
{
    let p = choose|p: Seq<usize>| is_walk(es, p) && p[0] == u && p.last() == v;
    let q = choose|q: Seq<usize>| is_walk(es, q) && q[0] == v && q.last() == w;
    let r = p + q.drop_first();
    assert forall|i: int| 0 <= i < r.len() - 1 implies adjacent(es, #[trigger] r[i], r[i + 1]) by {
        if i < p.len() - 1 {
            assert(r[i] == p[i] && r[i + 1] == p[i + 1]);
        } else if i == p.len() - 1 {
            assert(r[i] == q[0]);
            assert(r[i + 1] == q[1]);
        } else {
            let j = i - p.len() + 1;
            assert(r[i] == q[j] && r[i + 1] == q[j + 1]);
        }
    }
    if q.len() == 1 {
        assert(r =~= p);
    }
    assert(is_walk(es, r) && r[0] == u && r.last() == w);
}

/// A directed graph over the vertices `0..n`, with each vertex's successors
/// and predecessors listed in edge order.
pub struct Graph {
    pub n: usize,
    pub edges: Vec<(usize, usize)>,
    pub succ: Vec<Vec<usize>>,
    pub pred: Vec<Vec<usize>>,
}

impl Graph {
    /// The lists hold exactly the graph's edges.
    pub open spec fn wf(&self) -> bool {
        &&& self.succ@.len() == self.n
        &&& self.pred@.len() == self.n
        &&& edges_within(self.n as nat, self.edges@)
        &&& forall|v: int, j: int|
            0 <= v < self.n && 0 <= j < self.succ@[v]@.len() ==> has_edge(
                self.edges@,
                v as usize,
                #[trigger] self.succ@[v]@[j],
            )
        &&& forall|v: int, j: int|
            0 <= v < self.n && 0 <= j < self.pred@[v]@.len() ==> has_edge(
                self.edges@,
                #[trigger] self.pred@[v]@[j],
                v as usize,
            )
        &&& forall|i: int|
            0 <= i < self.edges@.len() ==> self.succ@[(#[trigger] self.edges@[i]).0 as int]@.contains(
                self.edges@[i].1,
            ) && self.pred@[self.edges@[i].1 as int]@.contains(self.edges@[i].0)
    }

    /// Builds the adjacency lists of the graph with `n` vertices and `edges`.
    pub fn new(n: usize, edges: Vec<(usize, usize)>) -> (r: Self)
        requires
            edges_within(n as nat, edges@),
        ensures
            r.wf(),
            r.n == n,
            r.edges@ == edges@,
    {
        let mut succ: Vec<Vec<usize>> = Vec::new();
        let mut pred: Vec<Vec<usize>> = Vec::new();
        let mut v: usize = 0;
        while v < n
            invariant
                v <= n,
                succ@.len() == v,
                pred@.len() == v,
                forall|u: int| 0 <= u < v ==> (#[trigger] succ@[u])@.len() == 0,
                forall|u: int| 0 <= u < v ==> (#[trigger] pred@[u])@.len() == 0,
            decreases n - v,
        {
            succ.push(Vec::new());
            pred.push(Vec::new());
            v = v + 1;
        }
        let mut i: usize = 0;
        while i < edges.len()
            invariant
                i <= edges@.len(),
                succ@.len() == n,
                pred@.len() == n,
                edges_within(n as nat, edges@),
                forall|v: int, j: int|
                    0 <= v < n && 0 <= j < succ@[v]@.len() ==> has_edge(
                        edges@,
                        v as usize,
                        #[trigger] succ@[v]@[j],
                    ),
                forall|v: int, j: int|
                    0 <= v < n && 0 <= j < pred@[v]@.len() ==> has_edge(
                        edges@,
                        #[trigger] pred@[v]@[j],
                        v as usize,
                    ),
                forall|e: int|
                    0 <= e < i ==> succ@[(#[trigger] edges@[e]).0 as int]@.contains(edges@[e].1)
                        && pred@[edges@[e].1 as int]@.contains(edges@[e].0),
            decreases edges.len() - i,
        {
            let (a, b) = edges[i];
            assert(edges@[i as int] == (a, b));
            let ghost old_succ = succ@;
            let ghost old_pred = pred@;
            succ[a].push(b);
            pred[b].push(a);
            assert forall|e: int| 0 <= e <= i implies succ@[(#[trigger] edges@[e]).0 as int]@.contains(
                edges@[e].1,
            ) && pred@[edges@[e].1 as int]@.contains(edges@[e].0) by {
                if e == i {
                    assert(succ@[a as int]@.last() == b);
                    assert(pred@[b as int]@.last() == a);
                } else {
                    let x = edges@[e].0 as int;
                    let y = edges@[e].1 as int;
                    let js = choose|j: int| 0 <= j < old_succ[x]@.len() && old_succ[x]@[j] == edges@[e].1;
                    assert(succ@[x]@[js] == edges@[e].1);
                    let jp = choose|j: int| 0 <= j < old_pred[y]@.len() && old_pred[y]@[j] == edges@[e].0;
                    assert(pred@[y]@[jp] == edges@[e].0);
                }
            }
            assert forall|v: int, j: int|
                0 <= v < n && 0 <= j < succ@[v]@.len() implies has_edge(
                edges@,
                v as usize,
                #[trigger] succ@[v]@[j],
            ) by {
                if v == a && j == old_succ[v]@.len() {
                } else {
                    assert(succ@[v]@[j] == old_succ[v]@[j]);
                }
            }
            assert forall|v: int, j: int|
                0 <= v < n && 0 <= j < pred@[v]@.len() implies has_edge(
                edges@,
                #[trigger] pred@[v]@[j],
                v as usize,
            ) by {
                if v == b && j == old_pred[v]@.len() {
                } else {
                    assert(pred@[v]@[j] == old_pred[v]@[j]);
                }
            }
            i = i + 1;
        }
        Graph { n, edges, succ, pred }
    }
}

/// Number of labelled entries of `label`.
pub open spec fn num_labeled(label: Seq<Option<usize>>) -> nat
    decreases label.len(),
{
    if label.len() == 0 {
        0
    } else {
        num_labeled(label.drop_last()) + if label.last() is Some {
            1nat
        } else {
            0nat
        }
    }
}

proof fn lemma_num_labeled_bound(label: Seq<Option<usize>>)
    ensures
        num_labeled(label) <= label.len(),
    decreases label.len(),
{
    if label.len() > 0 {
        lemma_num_labeled_bound(label.drop_last());
    }
}

proof fn lemma_num_labeled_update(label: Seq<Option<usize>>, v: int, x: usize)
    requires
        0 <= v < label.len(),
        label[v] is None,
    ensures
        num_labeled(label.update(v, Some(x))) == num_labeled(label) + 1,
    decreases label.len(),
{
    let l2 = label.update(v, Some(x));
    if v == label.len() - 1 {
        assert(l2.drop_last() =~= label.drop_last());
    } else {
        assert(l2.drop_last() =~= label.drop_last().update(v, Some(x)));
        lemma_num_labeled_update(label.drop_last(), v, x);
    }
}

/// The weakly-connected components of a graph: the component of each vertex,
/// and the vertices of each component in increasing order.
pub struct Components {
    pub comp_of: Vec<usize>,
    pub members: Vec<Vec<usize>>,
}

impl Components {
    /// `self` partitions the vertices of `g` into its weakly-connected
    /// components: no edge joins two components, and any two vertices of one
    /// component are joined by an undirected path.
    pub open spec fn partitions(&self, g: &Graph) -> bool {
        let es = g.edges@;
        &&& self.comp_of@.len() == g.n
        &&& forall|v: int|
            0 <= v < g.n ==> #[trigger] self.comp_of@[v] < self.members@.len()
                && self.members@[self.comp_of@[v] as int]@.contains(v as usize)
        &&& forall|c: int, j: int|
            0 <= c < self.members@.len() && 0 <= j < self.members@[c]@.len() ==> #[trigger] self.members@[c]@[j]
                < g.n && self.comp_of@[self.members@[c]@[j] as int] == c
        &&& forall|c: int, a: int, b: int|
            0 <= c < self.members@.len() && 0 <= a < b < self.members@[c]@.len()
                ==> #[trigger] self.members@[c]@[a] < #[trigger] self.members@[c]@[b]
        &&& forall|c: int| 0 <= c < self.members@.len() ==> (#[trigger] self.members@[c])@.len() > 0
        &&& forall|c: int, d: int|
            0 <= c < d < self.members@.len() ==> (#[trigger] self.members@[c])@[0] < (#[trigger] self.members@[d])@[0]
        &&& forall|i: int|
            0 <= i < es.len() ==> self.comp_of@[(#[trigger] es[i]).0 as int] == self.comp_of@[es[i].1 as int]
        &&& forall|u: int, v: int|
            0 <= u < g.n && 0 <= v < g.n && #[trigger] self.comp_of@[u] == #[trigger] self.comp_of@[v]
                ==> connected(es, u as usize, v as usize)
    }
}

/// Every edge joins two vertices of one label, but where one end is unlabelled
/// and the other, labelled `k`, is still open.
pub open spec fn edges_settled(
    es: Seq<(usize, usize)>,
    label: Seq<Option<usize>>,
    k: usize,
    open: Seq<usize>,
    cur: int,
) -> bool {
    forall|i: int|
        0 <= i < es.len() ==> {
            let a = (#[trigger] es[i]).0;
            let b = es[i].1;
            ||| label[a as int] == label[b as int]
            ||| label[a as int] == Some(k) && label[b as int] is None && (open.contains(a) || a == cur)
            ||| label[b as int] == Some(k) && label[a as int] is None && (open.contains(b) || b == cur)
        }
}

/// Labels `w`, a neighbour of the open vertex `cur`, with component `k` if
/// it has no label yet.
fn visit_neighbor(
    g: &Graph,
    label: &mut Vec<Option<usize>>,
    stack: &mut Vec<usize>,
    seeds: Ghost<Seq<usize>>,
    k: usize,
    cur: usize,
    w: usize,
)
    requires
        g.wf(),
        old(label)@.len() == g.n,
        cur < g.n,
        w < g.n,
        adjacent(g.edges@, cur, w),
        old(label)@[cur as int] == Some(k),
        seeds@.len() == k + 1,
        forall|v: int| 0 <= v < g.n && #[trigger] old(label)@[v] is Some ==> old(label)@[v]->0 <= k,
        forall|v: int| 0 <= v < g.n && #[trigger] old(label)@[v] is Some ==> seeds@[old(label)@[v]->0 as int] <= v,
        forall|v: int| 0 <= v < seeds@[k as int] ==> #[trigger] old(label)@[v] is Some,
        forall|v: int|
            0 <= v < g.n && #[trigger] old(label)@[v] is Some ==> connected(
                g.edges@,
                seeds@[old(label)@[v]->0 as int],
                v as usize,
            ),
        forall|j: int| 0 <= j < old(stack)@.len() ==> #[trigger] old(stack)@[j] < g.n && old(label)@[old(stack)@[j] as int] == Some(k),
        edges_settled(g.edges@, old(label)@, k, old(stack)@, cur as int),
    ensures
        final(label)@.len() == g.n,
        final(label)@[w as int] == Some(k),
        final(label)@[cur as int] == Some(k),
        forall|v: int| 0 <= v < g.n && #[trigger] final(label)@[v] is Some ==> final(label)@[v]->0 <= k,
        forall|v: int| 0 <= v < g.n && #[trigger] final(label)@[v] is Some ==> seeds@[final(label)@[v]->0 as int] <= v,
        forall|v: int| 0 <= v < g.n && old(label)@[v] is Some ==> #[trigger] final(label)@[v] == old(label)@[v],
        forall|v: int|
            0 <= v < g.n && #[trigger] final(label)@[v] is Some ==> connected(
                g.edges@,
                seeds@[final(label)@[v]->0 as int],
                v as usize,
            ),
        forall|j: int| 0 <= j < final(stack)@.len() ==> #[trigger] final(stack)@[j] < g.n && final(label)@[final(stack)@[j] as int] == Some(k),
        edges_settled(g.edges@, final(label)@, k, final(stack)@, cur as int),
        final(label)@ == old(label)@ && final(stack)@ == old(stack)@ || num_labeled(final(label)@)
            == num_labeled(old(label)@) + 1,
{
    let es = Ghost(g.edges@);
    if label[w].is_none() {
        proof {
            lemma_num_labeled_update(label@, w as int, k);
        }
        let ghost l0 = label@;
        let ghost s0 = stack@;
        label.set(w, Some(k));
        stack.push(w);
        proof {
            lemma_connected_extend(es@, seeds@[k as int], cur, w);
            assert forall|j: int| 0 <= j < stack@.len() implies #[trigger] stack@[j] < g.n
                && label@[stack@[j] as int] == Some(k) by {
                if j < s0.len() {
                    assert(stack@[j] == s0[j]);
                }
            }
            assert forall|i: int| 0 <= i < es@.len() implies {
                let a = (#[trigger] es@[i]).0;
                let b = es@[i].1;
                ||| label@[a as int] == label@[b as int]
                ||| label@[a as int] == Some(k) && label@[b as int] is None && (stack@.contains(a) || a == cur)
                ||| label@[b as int] == Some(k) && label@[a as int] is None && (stack@.contains(b) || b == cur)
            } by {
                let a = es@[i].0;
                let b = es@[i].1;
                assert(stack@.last() == w);
                if s0.contains(a) {
                    let j = choose|j: int| 0 <= j < s0.len() && s0[j] == a;
                    assert(stack@[j] == a);
                }
                if s0.contains(b) {
                    let j = choose|j: int| 0 <= j < s0.len() && s0[j] == b;
                    assert(stack@[j] == b);
                }
            }
        }
    } else {
        proof {
            let c = label@[w as int]->0;
            if c != k {
                let i = if has_edge(es@, cur, w) {
                    choose|i: int| 0 <= i < es@.len() && es@[i] == (cur, w)
                } else {
                    choose|i: int| 0 <= i < es@.len() && es@[i] == (w, cur)
                };
                assert(es@[i] == es@[i]);
            }
        }
    }
}

/// Splits `g` into its weakly-connected components, numbered in the order of
/// their smallest vertex.
pub fn into_weakly_connected_components(g: &Graph) -> (r: Components)
    requires
        g.wf(),
    ensures
        r.partitions(g),
{
    let n = g.n;
    let ghost es = g.edges@;
    let mut label: Vec<Option<usize>> = Vec::new();
    let mut v: usize = 0;
    while v < n
        invariant
            v <= n,
            label@.len() == v,
            forall|u: int| 0 <= u < v ==> #[trigger] label@[u] is None,
        decreases n - v,
    {
        label.push(None);
        v = v + 1;
    }
    let mut seeds: Vec<usize> = Vec::new();
    let mut s: usize = 0;
    while s < n
        invariant
            g.wf(),
            es == g.edges@,
            n == g.n,
            s <= n,
            label@.len() == n,
            forall|u: int| 0 <= u < s ==> #[trigger] label@[u] is Some,
            forall|u: int| 0 <= u < n && #[trigger] label@[u] is Some ==> label@[u]->0 < seeds@.len(),
            forall|u: int| 0 <= u < n && #[trigger] label@[u] is Some ==> seeds@[label@[u]->0 as int] <= u,
            forall|c: int, d: int| 0 <= c < d < seeds@.len() ==> #[trigger] seeds@[c] < #[trigger] seeds@[d],
            forall|c: int| 0 <= c < seeds@.len() ==> #[trigger] seeds@[c] < s,
            forall|c: int| 0 <= c < seeds@.len() ==> #[trigger] seeds@[c] < n && label@[seeds@[c] as int] == Some(c as usize),
            forall|u: int|
                0 <= u < n && #[trigger] label@[u] is Some ==> connected(es, seeds@[label@[u]->0 as int], u as usize),
            forall|i: int| 0 <= i < es.len() ==> label@[(#[trigger] es[i]).0 as int] == label@[es[i].1 as int],
        decreases n - s,
    {
        if label[s].is_none() {
            let k = seeds.len();
            proof {
                lemma_num_labeled_update(label@, s as int, k);
                lemma_connected_refl(es, s);
            }
            seeds.push(s);
            label.set(s, Some(k));
            let mut stack: Vec<usize> = Vec::new();
            stack.push(s);
            assert forall|c: int| 0 <= c < seeds@.len() implies #[trigger] seeds@[c] < n && label@[seeds@[c] as int] == Some(c as usize) by {
                if c < k {
                    assert(seeds@[c] != s);
                }
            }
            assert forall|i: int| 0 <= i < es.len() implies {
                let a = (#[trigger] es[i]).0;
                let b = es[i].1;
                ||| label@[a as int] == label@[b as int]
                ||| label@[a as int] == Some(k) && label@[b as int] is None && (stack@.contains(a) || a == n)
                ||| label@[b as int] == Some(k) && label@[a as int] is None && (stack@.contains(b) || b == n)
            } by {
                assert(stack@[0] == s);
            }
            while stack.len() > 0
                invariant
                    g.wf(),
                    es == g.edges@,
                    n == g.n,
                    s < n,
                    k + 1 == seeds@.len(),
                    seeds@[k as int] == s,
                    label@.len() == n,
                    label@[s as int] == Some(k),
                    forall|u: int| 0 <= u < s ==> #[trigger] label@[u] is Some,
                    forall|u: int| 0 <= u < n && #[trigger] label@[u] is Some ==> label@[u]->0 <= k,
                    forall|u: int| 0 <= u < n && #[trigger] label@[u] is Some ==> seeds@[label@[u]->0 as int] <= u,
                    forall|c: int| 0 <= c < seeds@.len() ==> #[trigger] seeds@[c] < n && label@[seeds@[c] as int] == Some(c as usize),
                    forall|u: int|
                        0 <= u < n && #[trigger] label@[u] is Some ==> connected(es, seeds@[label@[u]->0 as int], u as usize),
                    forall|j: int| 0 <= j < stack@.len() ==> #[trigger] stack@[j] < n && label@[stack@[j] as int] == Some(k),
                    edges_settled(es, label@, k, stack@, n as int),
                decreases n - num_labeled(label@), stack@.len(),
            {
                proof {
                    lemma_num_labeled_bound(label@);
                }
                let ghost full = stack@;
                let cur = stack.pop().unwrap();
                let ghost l_start = label@;
                let ghost st_start = stack@;
                proof {
                    assert forall|i: int| 0 <= i < es.len() implies {
                        let a = (#[trigger] es[i]).0;
                        let b = es[i].1;
                        ||| label@[a as int] == label@[b as int]
                        ||| label@[a as int] == Some(k) && label@[b as int] is None && (stack@.contains(a) || a == cur)
                        ||| label@[b as int] == Some(k) && label@[a as int] is None && (stack@.contains(b) || b == cur)
                    } by {
                        let a = es[i].0;
                        let b = es[i].1;
                        assert(full.last() == cur);
                        if full.contains(a) && a != cur {
                            let j = choose|j: int| 0 <= j < full.len() && full[j] == a;
                            assert(j != full.len() - 1);
                            assert(stack@[j] == a);
                        }
                        if full.contains(b) && b != cur {
                            let j = choose|j: int| 0 <= j < full.len() && full[j] == b;
                            assert(j != full.len() - 1);
                            assert(stack@[j] == b);
                        }
                    }
                }
                let mut j: usize = 0;
                while j < g.succ[cur].len()
                    invariant
                        g.wf(),
                        es == g.edges@,
                        n == g.n,
                        cur < n,
                        s < n,
                        k + 1 == seeds@.len(),
                    seeds@[k as int] == s,
                        label@.len() == n,
                        label@[s as int] == Some(k),
                        label@[cur as int] == Some(k),
                        forall|u: int| 0 <= u < s ==> #[trigger] label@[u] is Some,
                        forall|u: int| 0 <= u < n && #[trigger] label@[u] is Some ==> label@[u]->0 <= k,
                        forall|u: int| 0 <= u < n && #[trigger] label@[u] is Some ==> seeds@[label@[u]->0 as int] <= u,
                        forall|c: int| 0 <= c < seeds@.len() ==> #[trigger] seeds@[c] < n && label@[seeds@[c] as int] == Some(c as usize),
                        forall|u: int|
                            0 <= u < n && #[trigger] label@[u] is Some ==> connected(es, seeds@[label@[u]->0 as int], u as usize),
                        forall|q: int| 0 <= q < stack@.len() ==> #[trigger] stack@[q] < n && label@[stack@[q] as int] == Some(k),
                        edges_settled(es, label@, k, stack@, cur as int),
                        forall|q: int| 0 <= q < j ==> label@[#[trigger] g.succ@[cur as int]@[q] as int] == Some(k),
                        num_labeled(label@) >= num_labeled(l_start),
                        num_labeled(label@) == num_labeled(l_start) ==> stack@ == st_start,
                    decreases g.succ@[cur as int]@.len() - j,
                {
                    let w = g.succ[cur][j];
                    assert(has_edge(es, cur, w));
                    let ghost l_prev = label@;
                    visit_neighbor(g, &mut label, &mut stack, Ghost(seeds@), k, cur, w);
                    assert forall|c: int| 0 <= c < seeds@.len() implies #[trigger] seeds@[c] < n && label@[seeds@[c] as int] == Some(c as usize) by {
                        assert(l_prev[seeds@[c] as int] is Some);
                    }
                    assert forall|u: int| 0 <= u < s implies #[trigger] label@[u] is Some by {
                        assert(l_prev[u] is Some);
                    }
                    assert forall|q: int| 0 <= q <= j implies label@[#[trigger] g.succ@[cur as int]@[q] as int] == Some(k) by {
                        if q < j {
                            assert(l_prev[g.succ@[cur as int]@[q] as int] == Some(k));
                        }
                    }
                    j = j + 1;
                }
                let mut j: usize = 0;
                while j < g.pred[cur].len()
                    invariant
                        g.wf(),
                        es == g.edges@,
                        n == g.n,
                        cur < n,
                        s < n,
                        k + 1 == seeds@.len(),
                    seeds@[k as int] == s,
                        label@.len() == n,
                        label@[s as int] == Some(k),
                        label@[cur as int] == Some(k),
                        forall|u: int| 0 <= u < s ==> #[trigger] label@[u] is Some,
                        forall|u: int| 0 <= u < n && #[trigger] label@[u] is Some ==> label@[u]->0 <= k,
                        forall|u: int| 0 <= u < n && #[trigger] label@[u] is Some ==> seeds@[label@[u]->0 as int] <= u,
                        forall|c: int| 0 <= c < seeds@.len() ==> #[trigger] seeds@[c] < n && label@[seeds@[c] as int] == Some(c as usize),
                        forall|u: int|
                            0 <= u < n && #[trigger] label@[u] is Some ==> connected(es, seeds@[label@[u]->0 as int], u as usize),
                        forall|q: int| 0 <= q < stack@.len() ==> #[trigger] stack@[q] < n && label@[stack@[q] as int] == Some(k),
                        edges_settled(es, label@, k, stack@, cur as int),
                        forall|q: int| 0 <= q < g.succ@[cur as int]@.len() ==> label@[#[trigger] g.succ@[cur as int]@[q] as int] == Some(k),
                        forall|q: int| 0 <= q < j ==> label@[#[trigger] g.pred@[cur as int]@[q] as int] == Some(k),
                        num_labeled(label@) >= num_labeled(l_start),
                        num_labeled(label@) == num_labeled(l_start) ==> stack@ == st_start,
                    decreases g.pred@[cur as int]@.len() - j,
                {
                    let w = g.pred[cur][j];
                    assert(has_edge(es, w, cur));
                    let ghost l_prev = label@;
                    visit_neighbor(g, &mut label, &mut stack, Ghost(seeds@), k, cur, w);
                    assert forall|c: int| 0 <= c < seeds@.len() implies #[trigger] seeds@[c] < n && label@[seeds@[c] as int] == Some(c as usize) by {
                        assert(l_prev[seeds@[c] as int] is Some);
                    }
                    assert forall|u: int| 0 <= u < s implies #[trigger] label@[u] is Some by {
                        assert(l_prev[u] is Some);
                    }
                    assert forall|q: int| 0 <= q < g.succ@[cur as int]@.len() implies label@[#[trigger] g.succ@[cur as int]@[q] as int] == Some(k) by {
                        assert(l_prev[g.succ@[cur as int]@[q] as int] == Some(k));
                    }
                    assert forall|q: int| 0 <= q <= j implies label@[#[trigger] g.pred@[cur as int]@[q] as int] == Some(k) by {
                        if q < j {
                            assert(l_prev[g.pred@[cur as int]@[q] as int] == Some(k));
                        }
                    }
                    j = j + 1;
                }
                proof {
                    lemma_num_labeled_bound(label@);
                    assert forall|i: int| 0 <= i < es.len() implies {
                        let a = (#[trigger] es[i]).0;
                        let b = es[i].1;
                        ||| label@[a as int] == label@[b as int]
                        ||| label@[a as int] == Some(k) && label@[b as int] is None && (stack@.contains(a) || a == n)
                        ||| label@[b as int] == Some(k) && label@[a as int] is None && (stack@.contains(b) || b == n)
                    } by {
                        let a = es[i].0;
                        let b = es[i].1;
                        if a == cur {
                            assert(g.succ@[cur as int]@.contains(b));
                            let q = choose|q: int| 0 <= q < g.succ@[cur as int]@.len() && g.succ@[cur as int]@[q] == b;
                            assert(label@[g.succ@[cur as int]@[q] as int] == Some(k));
                        }
                        if b == cur {
                            assert(g.pred@[cur as int]@.contains(a));
                            let q = choose|q: int| 0 <= q < g.pred@[cur as int]@.len() && g.pred@[cur as int]@[q] == a;
                            assert(label@[g.pred@[cur as int]@[q] as int] == Some(k));
                        }
                    }
                }
            }
            proof {
                assert forall|i: int| 0 <= i < es.len() implies label@[(#[trigger] es[i]).0 as int] == label@[es[i].1 as int] by {
                    assert(!stack@.contains(es[i].0));
                    assert(!stack@.contains(es[i].1));
                }
            }
        }
        s = s + 1;
    }

    let mut comp_of: Vec<usize> = Vec::new();
    let mut members: Vec<Vec<usize>> = Vec::new();
    let mut c: usize = 0;
    while c < seeds.len()
        invariant
            c <= seeds@.len(),
            members@.len() == c,
            forall|d: int| 0 <= d < c ==> (#[trigger] members@[d])@.len() == 0,
        decreases seeds@.len() - c,
    {
        members.push(Vec::new());
        c = c + 1;
    }
    let mut v: usize = 0;
    while v < n
        invariant
            v <= n,
            n == g.n,
            label@.len() == n,
            members@.len() == seeds@.len(),
            comp_of@.len() == v,
            forall|u: int| 0 <= u < n ==> #[trigger] label@[u] is Some && label@[u]->0 < seeds@.len(),
            forall|u: int| 0 <= u < n && #[trigger] label@[u] is Some ==> seeds@[label@[u]->0 as int] <= u,
            forall|c: int| 0 <= c < seeds@.len() ==> #[trigger] seeds@[c] < n && label@[seeds@[c] as int] == Some(c as usize),
            forall|u: int| 0 <= u < v ==> #[trigger] comp_of@[u] == label@[u]->0,
            forall|u: int| 0 <= u < v ==> members@[label@[u]->0 as int]@.contains(#[trigger] (u as usize)),
            forall|c: int, j: int|
                0 <= c < members@.len() && 0 <= j < members@[c]@.len() ==> #[trigger] members@[c]@[j] < v
                    && label@[members@[c]@[j] as int] == Some(c as usize),
            forall|c: int, a: int, b: int|
                0 <= c < members@.len() && 0 <= a < b < members@[c]@.len()
                    ==> #[trigger] members@[c]@[a] < #[trigger] members@[c]@[b],
        decreases n - v,
    {
        let c = label[v].unwrap();
        let ghost m0 = members@;
        members[c].push(v);
        comp_of.push(c);
        assert forall|u: int| 0 <= u <= v implies members@[label@[u]->0 as int]@.contains(#[trigger] (u as usize)) by {
            if u < v {
                let d = label@[u]->0 as int;
                let j = choose|j: int| 0 <= j < m0[d]@.len() && m0[d]@[j] == u as usize;
                assert(members@[d]@[j] == u as usize);
            } else {
                assert(members@[c as int]@.last() == v);
            }
        }
        assert forall|d: int, j: int|
            0 <= d < members@.len() && 0 <= j < members@[d]@.len() implies #[trigger] members@[d]@[j] <= v
                && label@[members@[d]@[j] as int] == Some(d as usize) by {
            if d != c || j < m0[d]@.len() {
                assert(members@[d]@[j] == m0[d]@[j]);
            }
        }
        assert forall|d: int, a: int, b: int|
            0 <= d < members@.len() && 0 <= a < b < members@[d]@.len()
                implies #[trigger] members@[d]@[a] < #[trigger] members@[d]@[b] by {
            assert(members@[d]@[a] == m0[d]@[a]);
            if d != c || b < m0[d]@.len() {
                assert(members@[d]@[b] == m0[d]@[b]);
            }
        }
        v = v + 1;
    }
    let r = Components { comp_of, members };
    proof {
        assert forall|c: int| 0 <= c < r.members@.len() implies (#[trigger] r.members@[c])@.len() > 0
            && r.members@[c]@[0] == seeds@[c] by {
            assert(r.members@[c]@.contains(seeds@[c]));
            let j = choose|j: int| 0 <= j < r.members@[c]@.len() && r.members@[c]@[j] == seeds@[c];
            if j > 0 {
                assert(r.members@[c]@[0] < r.members@[c]@[j]);
            }
            assert(label@[r.members@[c]@[0] as int] == Some(c as usize));
        }
        assert forall|u: int, w: int|
            0 <= u < g.n && 0 <= w < g.n && #[trigger] r.comp_of@[u] == #[trigger] r.comp_of@[w]
                implies connected(es, u as usize, w as usize) by {
            let sd = seeds@[label@[u]->0 as int];
            lemma_connected_symm(es, sd, u as usize);
            lemma_connected_trans(es, u as usize, sd, w as usize);
        }
    }
    r
}

/// The order in which petgraph's `toposort` lists the nodes of an acyclic
/// graph with nodes `0..n` and the given edges.
pub uninterp spec fn toposort_of(n: usize, edges: Seq<(usize, usize)>) -> Seq<usize>;

/// Relies on petgraph: a `StableDiGraph` built with `add_node` for the nodes
/// `0..n` and `add_edge` for each pair of `edges`, handed to
/// `petgraph::algo::toposort`, which for an acyclic graph returns every node
/// once, each before its successors, and otherwise (self loops included) a
/// `Cycle` error.
#[verifier::external_body]
pub(crate) fn toposort(n: usize, edges: &Vec<(usize, usize)>) -> (r: Option<Vec<usize>>)
    requires
        n < 0xffff_ffff,
        edges@.len() < 0xffff_ffff,
        edges_within(n as nat, edges@),
    ensures
        r matches Some(order) ==> is_topological_order(n as nat, edges@, order@) && order@ == toposort_of(n, edges@),
        r is None ==> !is_acyclic(n as nat, edges@),
{
    let mut graph = petgraph::stable_graph::StableDiGraph::<(), ()>::with_capacity(n, edges.len());
    for _ in 0..n {
        graph.add_node(());
    }
    for &(a, b) in edges.iter() {
        graph.add_edge(petgraph::graph::NodeIndex::new(a), petgraph::graph::NodeIndex::new(b), ());
    }
    match petgraph::algo::toposort(&graph, None) {
        Ok(order) => Some(order.into_iter().map(|v| v.index()).collect()),
        Err(_) => None,
    }
}

} // verus!
