//! Generators of layered test graphs: two complete `k`-ary trees glued
//! together, the lower one upside down, plus random extra edges between
//! consecutive layers.

use vstd::prelude::*;

pub use crate::arith::geo_series;
use crate::arith::{geo, lemma_geo_bounds, lemma_geo_monotone, lemma_power_monotone,
    lemma_power_positive, pow_usize, power};
use crate::lcg::{LCG, LCG_INCREMENT, LCG_MULTIPLIER};

verus! {

/// Number of layers in one half of a graph with `n` layers: `ceil(n / 2)`.
pub open spec fn half_up(n: int) -> int {
    (n + 1) / 2
}

/// Vertex count of the glued graph with `n` layers and degree `k`.
pub open spec fn layered_vertex_count(n: int, k: int) -> int {
    let h = half_up(n);
    2 * (geo(k, h as nat) - 1) + 2 - (n % 2) * power(k, (h - 1) as nat)
}

/// The edges of the glued graph: the upper tree, the mirrored lower tree
/// and, for an even number of layers, the edges joining the two middle layers.
pub open spec fn layered_edges(n: int, k: int) -> Seq<(usize, usize)> {
    let h = half_up(n);
    let ne = geo(k, h as nat) - 1;
    let total = layered_vertex_count(n, k);
    let p = power(k, (h - 1) as nat);
    upper_tree_edges(k, ne) + lower_tree_edges(k, ne, total) + middle_edges(n, geo(k, (h - 1) as nat), p)
}

/// Edge `t` of the upper tree joins vertex `t / k` to vertex `t + 1`.
pub open spec fn upper_tree_edges(k: int, ne: int) -> Seq<(usize, usize)> {
    Seq::new(ne as nat, |t: int| ((t / k) as usize, (t + 1) as usize))
}

/// The upper tree mirrored through the vertex numbering, edges reversed.
pub open spec fn lower_tree_edges(k: int, ne: int, total: int) -> Seq<(usize, usize)> {
    Seq::new(ne as nat, |t: int| ((total - (t + 1) - 1) as usize, (total - t / k - 1) as usize))
}

/// For an even number of layers, vertex `first + t` of the last upper layer
/// (of `p` vertices) is joined to the vertex below it in the first lower layer.
pub open spec fn middle_edges(n: int, first: int, p: int) -> Seq<(usize, usize)> {
    if n % 2 == 0 {
        Seq::new(p as nat, |t: int| ((first + t) as usize, (first + t + p) as usize))
    } else {
        Seq::empty()
    }
}

/// The parameters for which a glued graph can be built without overflow.
pub open spec fn generator_ok(n: int, k: int) -> bool {
    &&& n >= 1
    &&& k >= 2
    &&& 3 * power(k, half_up(n) as nat) <= usize::MAX
}

/// The layer of a half that layer `layer` corresponds to, and whether it
/// lies in the lower half.
pub open spec fn relative_layer(n: int, layer: int) -> (usize, bool) {
    if layer < half_up(n) {
        (layer as usize, false)
    } else {
        (((n - 1) / 2 - (layer - n / 2)) as usize, true)
    }
}

/// `(count, first)` of the vertices on a relative layer.
pub open spec fn node_range(n_vertices: int, k: int, layer: int, is_lower_half: bool) -> (
    usize,
    usize,
) {
    let count = power(k, layer as nat);
    let start = geo(k, layer as nat);
    if is_lower_half {
        (count as usize, (n_vertices - start - count) as usize)
    } else {
        (count as usize, start as usize)
    }
}

pub open spec fn in_range(range: (usize, usize), v: usize) -> bool {
    range.1 <= v < range.1 + range.0
}

/// `new` is `old` with one edge appended that `old` did not hold.
pub open spec fn grows_by_fresh_edge(old: Seq<(usize, usize)>, new: Seq<(usize, usize)>) -> bool {
    &&& new.len() == old.len() + 1
    &&& new.drop_last() == old
    &&& !old.contains(new.last())
}

proof fn lemma_power_dominates(k: int, e: nat)
    requires
        k >= 2,
    ensures
        power(k, e) >= power(2, e),
    decreases e,
{
    if e > 0 {
        lemma_power_dominates(k, (e - 1) as nat);
        lemma_power_positive(2, (e - 1) as nat);
        let a = power(k, (e - 1) as nat);
        let b = power(2, (e - 1) as nat);
        assert(k * a >= 2 * b) by (nonlinear_arith)
            requires
                k >= 2,
                a >= b,
                b >= 1,
        ;
    }
}

/// An exponent whose power fits in a `usize` is small.
proof fn lemma_small_exponent(k: int, e: nat)
    requires
        k >= 2,
        power(k, e) <= usize::MAX,
    ensures
        e < 64,
{
    if e >= 64 {
        lemma_power_dominates(k, e);
        lemma_power_monotone(2, 64, e);
        reveal_with_fuel(power, 65);
        assert(power(2, 64) == 0x1_0000_0000_0000_0000);
    }
}

/// The first vertices of a layer and the layer itself fit below the vertex count.
proof fn lemma_ranges_fit(n: int, k: int, layer: int)
    requires
        generator_ok(n, k),
        0 <= layer < half_up(n),
    ensures
        power(k, layer as nat) <= power(k, (half_up(n) - 1) as nat),
        geo(k, layer as nat) + power(k, layer as nat) <= layered_vertex_count(n, k),
        geo(k, half_up(n) as nat) <= layered_vertex_count(n, k),
        power(k, (half_up(n) - 1) as nat) <= geo(k, half_up(n) as nat),
        geo(k, half_up(n) as nat) <= power(k, half_up(n) as nat) - 1,
{
    let h = half_up(n);
    let m = n % 2;
    let p = power(k, (h - 1) as nat);
    if m == 0 {
        assert(m * p == 0);
    } else {
        assert(m * p == p);
    }
    lemma_power_monotone(k, layer as nat, (h - 1) as nat);
    lemma_geo_bounds(k, h as nat);
    lemma_geo_monotone(k, (layer + 1) as nat, h as nat);
    assert(geo(k, (layer + 1) as nat) == geo(k, layer as nat) + power(k, layer as nat));
}

/// Every edge of the glued graph goes from a smaller to a greater vertex
/// number, below the vertex count.
proof fn lemma_layered_edges_in_range(n: int, k: int)
    requires
        generator_ok(n, k),
    ensures
        forall|i: int|
            0 <= i < layered_edges(n, k).len() ==> (#[trigger] layered_edges(n, k)[i]).0 < layered_edges(n, k)[i].1
                < layered_vertex_count(n, k),
{
    let h = half_up(n);
    let ne = geo(k, h as nat) - 1;
    let total = layered_vertex_count(n, k);
    let p = power(k, (h - 1) as nat);
    let g1 = geo(k, (h - 1) as nat);
    lemma_ranges_fit(n, k, 0);
    lemma_small_exponent(k, h as nat);
    lemma_power_monotone(k, (h - 1) as nat, h as nat);
    lemma_geo_bounds(k, h as nat);
    lemma_geo_bounds(k, (h - 1) as nat);
    assert(geo(k, h as nat) == g1 + p);
    let m = n % 2;
    assert(total == 2 * (ne + 1) - m * p);
    assert(m * p <= p) by (nonlinear_arith)
        requires
            0 <= m <= 1,
            p >= 0,
    ;
    assert(n % 2 == 0 ==> m * p == 0) by (nonlinear_arith)
        requires
            m == n % 2,
    ;
    let es = layered_edges(n, k);
    let up = upper_tree_edges(k, ne);
    let lo = lower_tree_edges(k, ne, total);
    let mid = middle_edges(n, g1, p);
    assert forall|i: int| 0 <= i < es.len() implies (#[trigger] es[i]).0 < es[i].1 < total by {
        if i < ne {
            assert(es[i] == up[i]);
            assert(0 <= i / k <= i) by (nonlinear_arith)
                requires
                    k >= 2,
                    i >= 0,
            ;
        } else if i < 2 * ne {
            let t = i - ne;
            assert(es[i] == lo[t]);
            assert(0 <= t / k <= t) by (nonlinear_arith)
                requires
                    k >= 2,
                    t >= 0,
            ;
        } else {
            let t = i - 2 * ne;
            assert(es[i] == mid[t]);
        }
    }
}

/// Builds a [`LayeredGraphRandomizer`] for a glued graph of `n` layers.
pub struct LayeredGraphGenerator {
    pub n: usize,
    pub seed: Option<u128>,
}

impl LayeredGraphGenerator {
    pub fn new(layers: usize) -> (r: Self)
        ensures
            r.n == layers,
            r.seed is None,
    {
        LayeredGraphGenerator { n: layers, seed: None }
    }

    pub fn with_seed(self, seed: u128) -> (r: Self)
        ensures
            r.n == self.n,
            r.seed == Some(seed),
    {
        let mut s = self;
        s.seed = Some(seed);
        s
    }

    /// Builds the glued graph in which every vertex has `deg` children in its tree.
    pub fn with_degree(self, deg: usize) -> (r: LayeredGraphRandomizer)
        requires
            generator_ok(self.n as int, deg as int),
        ensures
            r.wf(),
            r.n == self.n,
            r.k == deg,
            r.n_vertices == layered_vertex_count(self.n as int, deg as int),
            r.edges@ == layered_edges(self.n as int, deg as int),
            forall|i: int| 0 <= i < r.edges@.len() ==> (#[trigger] r.edges@[i]).0 < r.edges@[i].1 < r.n_vertices,
            r.lcg.a == LCG_MULTIPLIER,
            r.lcg.c == LCG_INCREMENT,
            self.seed matches Some(s) ==> r.lcg.state == s,
    {
        let n = self.n;
        let ghost k = deg as int;
        let ghost h = half_up(n as int);
        let n_layers_half = (n - 1) / 2 + 1;
        proof {
            lemma_small_exponent(k, h as nat);
            lemma_ranges_fit(n as int, k, 0);
            lemma_power_monotone(k, (h - 1) as nat, h as nat);
        }
        let pow = pow_usize(deg, (n_layers_half - 1) as u32);
        let n_edges_half = geo_series(deg, n_layers_half as u32) - 1;
        let odd_part = if n % 2 == 1 {
            pow
        } else {
            0
        };
        let total_vertices = 2 * n_edges_half + 2 - odd_part;
        proof {
            let m = n as int % 2;
            assert(odd_part == m * pow) by (nonlinear_arith)
                requires
                    m == n as int % 2,
                    odd_part == if n % 2 == 1 { pow } else { 0 },
            ;
        }
        assert(total_vertices == layered_vertex_count(n as int, k));
        let ghost ne = n_edges_half as int;
        let ghost total = total_vertices as int;

        let mut edges: Vec<(usize, usize)> = Vec::new();
        let mut calc = EdgesCalculator::new(deg);
        let mut t: usize = 0;
        while t < n_edges_half
            invariant
                t <= n_edges_half,
                calc.i == t + 1,
                calc.k == deg,
                deg >= 2,
                k == deg as int,
                n_edges_half < usize::MAX,
                edges@ == upper_tree_edges(k, t as int),
            decreases n_edges_half - t,
        {
            let e = calc.next();
            edges.push(e);
            t = t + 1;
            assert(edges@ =~= upper_tree_edges(k, t as int));
        }
        assert(edges@ =~= upper_tree_edges(k, ne));

        let mut calc = EdgesCalculator::new(deg);
        let mut t: usize = 0;
        while t < n_edges_half
            invariant
                t <= n_edges_half,
                calc.i == t + 1,
                calc.k == deg,
                deg >= 2,
                k == deg as int,
                ne == n_edges_half as int,
                total == total_vertices as int,
                n_edges_half < usize::MAX,
                total_vertices >= n_edges_half + 1,
                edges@ == upper_tree_edges(k, ne) + lower_tree_edges(k, t as int, total),
            decreases n_edges_half - t,
        {
            let (j, i) = calc.next();
            edges.push((total_vertices - i - 1, total_vertices - j - 1));
            t = t + 1;
            assert(edges@ =~= upper_tree_edges(k, ne) + lower_tree_edges(k, t as int, total));
        }
        assert(lower_tree_edges(k, n_edges_half as int, total) =~= lower_tree_edges(k, ne, total));

        if n % 2 == 0 {
            proof {
                lemma_geo_bounds(k, (h - 1) as nat);
            }
            let first = geo_series(deg, (n_layers_half - 1) as u32);
            let ghost g1 = first as int;
            let mut t: usize = 0;
            while t < pow
                invariant
                    t <= pow,
                    first as int == g1,
                    g1 + 1 <= pow,
                    3 * pow <= usize::MAX,
                    k == deg as int,
                    n % 2 == 0,
                    edges@ == upper_tree_edges(k, ne) + lower_tree_edges(k, ne, total) + Seq::new(
                        t as nat,
                        |x: int| ((g1 + x) as usize, (g1 + x + pow) as usize),
                    ),
                decreases pow - t,
            {
                edges.push((first + t, first + t + pow));
                t = t + 1;
                assert(edges@ =~= upper_tree_edges(k, ne) + lower_tree_edges(k, ne, total)
                    + Seq::new(
                    t as nat,
                    |x: int| ((g1 + x) as usize, (g1 + x + pow) as usize),
                ));
            }
        }
        assert(edges@ =~= layered_edges(n as int, k));
        proof {
            lemma_layered_edges_in_range(n as int, k);
        }

        let lcg = match self.seed {
            Some(seed) => LCG::new_seed(seed),
            None => LCG::new(),
        };
        LayeredGraphRandomizer { n, k: deg, edges, n_vertices: total_vertices, lcg }
    }
}

/// A glued graph to which random edges between consecutive layers can be
/// added. Layers are numbered from one; layer `l` stands for the edges
/// between layer `l` and layer `l + 1`.
pub struct LayeredGraphRandomizer {
    pub n: usize,
    pub k: usize,
    pub edges: Vec<(usize, usize)>,
    pub n_vertices: usize,
    pub lcg: LCG,
}

impl LayeredGraphRandomizer {
    pub open spec fn wf(&self) -> bool {
        &&& generator_ok(self.n as int, self.k as int)
        &&& self.n_vertices == layered_vertex_count(self.n as int, self.k as int)
    }

    /// The vertices between which `add_random_edge_in_layer(layer)` draws an
    /// edge: tails on layer `layer`, heads on layer `layer + 1`.
    pub open spec fn layer_ranges(&self, layer: int) -> ((usize, usize), (usize, usize)) {
        let u = relative_layer(self.n as int, layer - 1);
        let l = relative_layer(self.n as int, layer);
        (
            node_range(self.n_vertices as int, self.k as int, u.0 as int, u.1),
            node_range(self.n_vertices as int, self.k as int, l.0 as int, l.1),
        )
    }

    /// `r` is `self` with at most one fresh edge between layers `layer` and
    /// `layer + 1`, and nothing else changed but the generator's state.
    pub open spec fn adds_edge_in_layer(&self, r: Self, layer: int) -> bool {
        &&& r.wf()
        &&& r.n == self.n
        &&& r.k == self.k
        &&& r.n_vertices == self.n_vertices
        &&& r.lcg.a == self.lcg.a
        &&& r.lcg.c == self.lcg.c
        &&& (r.edges@ == self.edges@ || {
            &&& 1 < layer < self.n - 1
            &&& grows_by_fresh_edge(self.edges@, r.edges@)
            &&& in_range(self.layer_ranges(layer).0, r.edges@.last().0)
            &&& in_range(self.layer_ranges(layer).1, r.edges@.last().1)
        })
    }

    /// Returns the edges, each as `(tail, head)`.
    pub fn build(self) -> (r: Vec<(usize, usize)>)
        ensures
            r@ == self.edges@,
    {
        self.edges
    }

    /// Adds one random edge between a random layer and the next.
    pub fn add_random_edge(self) -> (r: Self)
        requires
            self.wf(),
        ensures
            exists|layer: int| 1 <= layer <= self.n && self.adds_edge_in_layer(r, layer),
    {
        let mut s = self;
        let layer = s.lcg.generate_range(s.n);
        let ghost mid = s;
        let r = s.add_random_edge_in_layer(layer + 1);
        assert(mid.layer_ranges(layer + 1) == self.layer_ranges(layer + 1));
        assert(self.adds_edge_in_layer(r, layer + 1));
        r
    }

    /// Adds `amount` random edges on random layers.
    pub fn add_random_edges(self, amount: usize) -> (r: Self)
        requires
            self.wf(),
        ensures
            r.wf(),
            r.n == self.n,
            r.k == self.k,
            r.n_vertices == self.n_vertices,
            self.edges@.len() <= r.edges@.len() <= self.edges@.len() + amount,
            r.edges@.subrange(0, self.edges@.len() as int) == self.edges@,
            forall|i: int|
                self.edges@.len() <= i < r.edges@.len() ==> !r.edges@.subrange(0, i).contains(
                    #[trigger] r.edges@[i],
                ),
    {
        let mut s = self;
        let mut c: usize = 0;
        while c < amount
            invariant
                c <= amount,
                s.wf(),
                s.n == self.n,
                s.k == self.k,
                s.n_vertices == self.n_vertices,
                self.edges@.len() <= s.edges@.len() <= self.edges@.len() + c,
                s.edges@.subrange(0, self.edges@.len() as int) == self.edges@,
                forall|i: int|
                    self.edges@.len() <= i < s.edges@.len() ==> !s.edges@.subrange(0, i).contains(
                        #[trigger] s.edges@[i],
                    ),
            decreases amount - c,
        {
            let ghost prev = s;
            s = s.add_random_edge();
            proof {
                lemma_fresh_growth(self.edges@, prev.edges@, s.edges@);
            }
            c = c + 1;
        }
        s
    }

    /// Adds one random edge between layer `layer` and layer `layer + 1`
    /// (layers counted from one), leaving the graph as it is when `layer` is
    /// not strictly between `1` and `n - 1`, or when no edge absent from the
    /// graph was drawn in a hundred tries.
    pub fn add_random_edge_in_layer(self, layer: usize) -> (r: Self)
        requires
            self.wf(),
        ensures
            self.adds_edge_in_layer(r, layer as int),
            (layer >= self.n - 1 || layer <= 1) ==> r.edges@ == self.edges@,
    {
        let mut s = self;
        if layer >= s.n - 1 || layer <= 1 {
            s
        } else {
            let l = layer - 1;
            let ru = s.determine_relative_layer(l);
            let upper_range = s.determine_node_range(ru);
            let rl = s.determine_relative_layer(l + 1);
            let lower_range = s.determine_node_range(rl);
            assert(upper_range == self.layer_ranges(layer as int).0);
            assert(lower_range == self.layer_ranges(layer as int).1);
            let mut tries: usize = 0;
            while tries < 100
                invariant
                    s.wf(),
                    s.n == self.n,
                    s.k == self.k,
                    s.n_vertices == self.n_vertices,
                    s.lcg.a == self.lcg.a,
                    s.lcg.c == self.lcg.c,
                    s.edges@ == self.edges@,
                    1 < layer < self.n - 1,
                    upper_range == self.layer_ranges(layer as int).0,
                    lower_range == self.layer_ranges(layer as int).1,
                    upper_range.0 > 0,
                    lower_range.0 > 0,
                    upper_range.1 + upper_range.0 <= usize::MAX,
                    lower_range.1 + lower_range.0 <= usize::MAX,
                decreases 100 - tries,
            {
                let tail = s.create_random_vertex(upper_range);
                let head = s.create_random_vertex(lower_range);
                if !contains_edge(&s.edges, (tail, head)) {
                    s.edges.push((tail, head));
                    assert(s.edges@.drop_last() == self.edges@);
                    assert(s.edges@.last() == (tail, head));
                    assert(grows_by_fresh_edge(self.edges@, s.edges@));
                    return s;
                }
                tries = tries + 1;
            }
            s
        }
    }

    /// Adds `amount` random edges between layer `layer` and layer `layer + 1`.
    pub fn add_random_edges_in_layer(self, amount: usize, layer: usize) -> (r: Self)
        requires
            self.wf(),
        ensures
            r.wf(),
            r.n == self.n,
            r.k == self.k,
            r.n_vertices == self.n_vertices,
            self.edges@.len() <= r.edges@.len() <= self.edges@.len() + amount,
            r.edges@.subrange(0, self.edges@.len() as int) == self.edges@,
            forall|i: int|
                self.edges@.len() <= i < r.edges@.len() ==> {
                    &&& !r.edges@.subrange(0, i).contains(#[trigger] r.edges@[i])
                    &&& in_range(self.layer_ranges(layer as int).0, r.edges@[i].0)
                    &&& in_range(self.layer_ranges(layer as int).1, r.edges@[i].1)
                },
    {
        let mut s = self;
        let mut c: usize = 0;
        while c < amount
            invariant
                c <= amount,
                s.wf(),
                s.n == self.n,
                s.k == self.k,
                s.n_vertices == self.n_vertices,
                self.edges@.len() <= s.edges@.len() <= self.edges@.len() + c,
                s.edges@.subrange(0, self.edges@.len() as int) == self.edges@,
                forall|i: int|
                    self.edges@.len() <= i < s.edges@.len() ==> {
                        &&& !s.edges@.subrange(0, i).contains(#[trigger] s.edges@[i])
                        &&& in_range(self.layer_ranges(layer as int).0, s.edges@[i].0)
                        &&& in_range(self.layer_ranges(layer as int).1, s.edges@[i].1)
                    },
            decreases amount - c,
        {
            let ghost prev = s;
            s = s.add_random_edge_in_layer(layer);
            proof {
                lemma_fresh_growth(self.edges@, prev.edges@, s.edges@);
                assert(prev.layer_ranges(layer as int) == self.layer_ranges(layer as int));
                if s.edges@ != prev.edges@ {
                    assert(s.edges@[s.edges@.len() - 1] == s.edges@.last());
                }
                assert forall|i: int| self.edges@.len() <= i < s.edges@.len() implies {
                    &&& in_range(self.layer_ranges(layer as int).0, s.edges@[i].0)
                    &&& in_range(self.layer_ranges(layer as int).1, s.edges@[i].1)
                } by {
                    if i < prev.edges@.len() {
                        assert(s.edges@[i] == prev.edges@[i]);
                    }
                }
            }
            c = c + 1;
        }
        s
    }

    /// The half-relative layer of layer `layer` (counted from zero).
    pub fn determine_relative_layer(&self, layer: usize) -> (r: (usize, bool))
        requires
            self.wf(),
            layer < self.n,
        ensures
            r == relative_layer(self.n as int, layer as int),
            r.0 < half_up(self.n as int),
    {
        let n = self.n;
        if layer < (n - 1) / 2 + 1 {
            (layer, false)
        } else {
            ((n - 1) / 2 - (layer - n / 2), true)
        }
    }

    /// The number of vertices on a relative layer and the first of them.
    pub fn determine_node_range(&self, layer: (usize, bool)) -> (r: (usize, usize))
        requires
            self.wf(),
            layer.0 < half_up(self.n as int),
        ensures
            r == node_range(self.n_vertices as int, self.k as int, layer.0 as int, layer.1),
            r.0 > 0,
            r.1 + r.0 <= self.n_vertices,
    {
        let (l, is_lower_half) = layer;
        proof {
            lemma_ranges_fit(self.n as int, self.k as int, l as int);
            lemma_small_exponent(self.k as int, l as nat);
            lemma_power_monotone(self.k as int, (half_up(self.n as int) - 1) as nat, half_up(self.n as int) as nat);
            lemma_power_positive(self.k as int, l as nat);
            lemma_geo_bounds(self.k as int, l as nat);
        }
        let n_vertices = pow_usize(self.k, l as u32);
        let mut start = geo_series(self.k, l as u32);
        if is_lower_half {
            start = self.n_vertices - start - n_vertices;
        }
        (n_vertices, start)
    }

    /// A random vertex among the `range.0` vertices from `range.1` on.
    pub fn create_random_vertex(&mut self, range: (usize, usize)) -> (r: usize)
        requires
            range.0 > 0,
            range.1 + range.0 <= usize::MAX,
        ensures
            in_range(range, r),
            final(self).n == old(self).n,
            final(self).k == old(self).k,
            final(self).n_vertices == old(self).n_vertices,
            final(self).edges == old(self).edges,
            final(self).lcg.a == old(self).lcg.a,
            final(self).lcg.c == old(self).lcg.c,
    {
        let (n_vertices, start) = range;
        self.lcg.generate_range(n_vertices) + start
    }
}

proof fn lemma_fresh_growth(base: Seq<(usize, usize)>, prev: Seq<(usize, usize)>, next: Seq<(usize, usize)>)
    requires
        base.len() <= prev.len(),
        prev.subrange(0, base.len() as int) == base,
        forall|i: int|
            base.len() <= i < prev.len() ==> !prev.subrange(0, i).contains(#[trigger] prev[i]),
        next == prev || grows_by_fresh_edge(prev, next),
    ensures
        next.subrange(0, base.len() as int) == base,
        forall|i: int|
            base.len() <= i < next.len() ==> !next.subrange(0, i).contains(#[trigger] next[i]),
{
    if next != prev {
        assert(next.subrange(0, prev.len() as int) =~= prev);
        assert(next.subrange(0, base.len() as int) =~= base);
        assert forall|i: int| base.len() <= i < next.len() implies !next.subrange(0, i).contains(
            #[trigger] next[i],
        ) by {
            if i < prev.len() {
                assert(next.subrange(0, i) =~= prev.subrange(0, i));
                assert(next[i] == prev[i]);
            } else {
                assert(next.subrange(0, i) =~= prev);
                assert(next[i] == next.last());
            }
        }
    }
}

/// Whether `edges` holds `e`.
pub fn contains_edge(edges: &Vec<(usize, usize)>, e: (usize, usize)) -> (r: bool)
    ensures
        r == edges@.contains(e),
{
    let mut i: usize = 0;
    while i < edges.len()
        invariant
            i <= edges@.len(),
            forall|j: int| 0 <= j < i ==> edges@[j] != e,
        decreases edges.len() - i,
    {
        if edges[i].0 == e.0 && edges[i].1 == e.1 {
            return true;
        }
        i = i + 1;
    }
    false
}

/// Walks the vertices of a complete `k`-ary tree in numbering order,
/// yielding each vertex with its parent.
pub struct EdgesCalculator {
    pub i: usize,
    pub k: usize,
}

impl EdgesCalculator {
    pub fn new(deg: usize) -> (r: Self)
        ensures
            r.i == 1,
            r.k == deg,
    {
        EdgesCalculator { i: 1, k: deg }
    }

    /// The edge `(parent, vertex)` into the current vertex; moves to the next vertex.
    pub fn next(&mut self) -> (r: (usize, usize))
        requires
            old(self).k > 0,
            1 <= old(self).i < usize::MAX,
        ensures
            r.0 == (old(self).i - 1) as int / old(self).k as int,
            r.1 == old(self).i,
            final(self).i == old(self).i + 1,
            final(self).k == old(self).k,
    {
        let i = self.i;
        let j = (i - 1) / self.k;
        self.i = i + 1;
        (j, i)
    }
}

} // verus!
