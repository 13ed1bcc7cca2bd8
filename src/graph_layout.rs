//! The layered layout of one weakly-connected component: levels, centring,
//! crossing reduction, gap sliding and the optional lift of sources to the
//! top level.

use vstd::prelude::*;

use std::collections::HashMap;

use crate::graph::{
    adjacent, connected, edges_within, has_edge, into_weakly_connected_components, is_acyclic,
    is_topological_order, is_walk, toposort, Components, Graph,
};

verus! {

/// The vertices of component `c`.
pub open spec fn comp_set(comps: &Components, c: usize) -> Set<usize> {
    Set::new(|v: usize| v < comps.comp_of@.len() && comps.comp_of@[v as int] == c)
}

/// Every edge between two vertices of `s` goes to a strictly greater level.
pub open spec fn levels_respect_edges(es: Seq<(usize, usize)>, level: Seq<usize>, s: Set<usize>) -> bool {
    forall|i: int|
        0 <= i < es.len() && s.contains((#[trigger] es[i]).0) && s.contains(es[i].1) ==> level[es[i].0 as int]
            < level[es[i].1 as int]
}

/// The component `s` is closed under the adjacency lists of `g`.
pub open spec fn closed_under_lists(g: &Graph, s: Set<usize>) -> bool {
    &&& forall|v: usize| #[trigger] s.contains(v) ==> v < g.n
    &&& forall|v: usize, j: int|
        s.contains(v) && 0 <= j < g.succ@[v as int]@.len() ==> s.contains(#[trigger] g.succ@[v as int]@[j])
    &&& forall|v: usize, j: int|
        s.contains(v) && 0 <= j < g.pred@[v as int]@.len() ==> s.contains(#[trigger] g.pred@[v as int]@[j])
}

/// The state of the layout of one component: the grid of levels, each a row
/// of slots that are empty or hold one vertex, and for each vertex its level
/// and its column.
pub struct GraphLayout {
    pub layers: Vec<Vec<Option<usize>>>,
    pub level_of_node: Vec<usize>,
    pub index_of_node: Vec<usize>,
    pub node_separation: isize,
    pub global_tasks_in_first_row: bool,
}

impl GraphLayout {
    /// The grid holds exactly the vertices of `s`, each once, at the level
    /// and column that the two maps give.
    pub open spec fn placed(&self, s: Set<usize>) -> bool {
        &&& forall|v: usize| #[trigger] s.contains(v) ==> {
            &&& v < self.level_of_node@.len()
            &&& self.level_of_node@[v as int] < self.layers@.len()
            &&& self.index_of_node@[v as int] < self.layers@[self.level_of_node@[v as int] as int]@.len()
            &&& self.layers@[self.level_of_node@[v as int] as int]@[self.index_of_node@[v as int] as int]
                == Some(v)
        }
        &&& forall|l: int, i: int|
            0 <= l < self.layers@.len() && 0 <= i < self.layers@[l]@.len() && (#[trigger] self.layers@[l]@[i]) is Some
                ==> {
                let w = self.layers@[l]@[i]->0;
                &&& s.contains(w)
                &&& self.level_of_node@[w as int] == l
                &&& self.index_of_node@[w as int] == i
            }
    }

    pub open spec fn sized(&self, n: nat) -> bool {
        self.level_of_node@.len() == n && self.index_of_node@.len() == n
    }

    /// An empty layout for a graph of `n` vertices.
    pub fn new(n: usize, node_separation: isize, global_tasks_in_first_row: bool) -> (r: Self)
        ensures
            r.sized(n as nat),
            r.layers@.len() == 0,
            r.node_separation == node_separation,
            r.global_tasks_in_first_row == global_tasks_in_first_row,
    {
        let mut level_of_node: Vec<usize> = Vec::new();
        let mut index_of_node: Vec<usize> = Vec::new();
        let mut v: usize = 0;
        while v < n
            invariant
                v <= n,
                level_of_node@.len() == v,
                index_of_node@.len() == v,
            decreases n - v,
        {
            level_of_node.push(0);
            index_of_node.push(0);
            v = v + 1;
        }
        GraphLayout {
            layers: Vec::new(),
            level_of_node,
            index_of_node,
            node_separation,
            global_tasks_in_first_row,
        }
    }

    /// Appends `v`, not yet in the grid, to level `node_level`, adding
    /// levels below the grid as needed.
    fn add_node_to_level(&mut self, v: usize, node_level: usize, s: Ghost<Set<usize>>)
        requires
            old(self).placed(s@),
            !s@.contains(v),
            v < old(self).level_of_node@.len(),
            old(self).level_of_node@.len() == old(self).index_of_node@.len(),
        ensures
            final(self).placed(s@.insert(v)),
            final(self).level_of_node@ == old(self).level_of_node@.update(v as int, node_level),
            final(self).index_of_node@.len() == old(self).index_of_node@.len(),
            final(self).layers@.len() == if node_level < old(self).layers@.len() {
                old(self).layers@.len() as int
            } else {
                node_level + 1
            },
            forall|l: int| 0 <= l < old(self).layers@.len() && l != node_level ==> #[trigger] final(self).layers@[l] == old(self).layers@[l],
            node_level < old(self).layers@.len() ==> final(self).layers@[node_level as int]@ == old(self).layers@[node_level as int]@.push(Some(v)),
            final(self).grid() == grid_place(old(self).grid(), v, node_level as int),
            final(self).node_separation == old(self).node_separation,
            final(self).global_tasks_in_first_row == old(self).global_tasks_in_first_row,
    {
        let ghost old_self = *self;
        while self.layers.len() <= node_level
            invariant
                self.placed(s@),
                self.level_of_node == old_self.level_of_node,
                self.index_of_node == old_self.index_of_node,
                self.node_separation == old_self.node_separation,
                self.global_tasks_in_first_row == old_self.global_tasks_in_first_row,
                old_self.layers@.len() <= self.layers@.len() <= if node_level < old_self.layers@.len() {
                    old_self.layers@.len() as int
                } else {
                    node_level + 1
                },
                forall|l: int| 0 <= l < old_self.layers@.len() ==> #[trigger] self.layers@[l] == old_self.layers@[l],
                forall|l: int| old_self.layers@.len() <= l < self.layers@.len() ==> (#[trigger] self.layers@[l])@.len() == 0,
            decreases node_level + 1 - self.layers@.len(),
        {
            let ghost before = *self;
            self.layers.push(Vec::new());
            assert forall|l: int, i: int|
                0 <= l < self.layers@.len() && 0 <= i < self.layers@[l]@.len() && (#[trigger] self.layers@[l]@[i]) is Some
                implies {
                let w = self.layers@[l]@[i]->0;
                &&& s@.contains(w)
                &&& self.level_of_node@[w as int] == l
                &&& self.index_of_node@[w as int] == i
            } by {
                assert(self.layers@[l] == before.layers@[l]);
            }
        }
        let ghost mid = *self;
        proof {
            let st = old_self.grid();
            let rows = if (node_level as int) < st.0.len() {
                st.0
            } else {
                st.0 + Seq::new((node_level + 1 - st.0.len()) as nat, |i: int| Seq::<Option<usize>>::empty())
            };
            assert(mid.grid().0 =~= rows) by {
                assert forall|l: int| 0 <= l < rows.len() implies mid.grid().0[l] == rows[l] by {
                    if l >= st.0.len() {
                        assert(mid.layers@[l]@ =~= Seq::<Option<usize>>::empty());
                    }
                }
            }
        }
        let len = self.layers[node_level].len();
        self.layers[node_level].push(Some(v));
        self.level_of_node.set(v, node_level);
        self.index_of_node.set(v, len);
        assert(self.grid().0 =~= mid.grid().0.update(node_level as int, mid.grid().0[node_level as int].push(Some(v))));
        let ghost ss = s@.insert(v);
        assert forall|u: usize| #[trigger] ss.contains(u) implies {
            &&& u < self.level_of_node@.len()
            &&& self.level_of_node@[u as int] < self.layers@.len()
            &&& self.index_of_node@[u as int] < self.layers@[self.level_of_node@[u as int] as int]@.len()
            &&& self.layers@[self.level_of_node@[u as int] as int]@[self.index_of_node@[u as int] as int]
                == Some(u)
        } by {
            if u != v {
                assert(s@.contains(u));
                let l = mid.level_of_node@[u as int];
                assert(mid.layers@[l as int]@[mid.index_of_node@[u as int] as int] == Some(u));
            }
        }
        assert forall|l: int, i: int|
            0 <= l < self.layers@.len() && 0 <= i < self.layers@[l]@.len() && (#[trigger] self.layers@[l]@[i]) is Some
            implies {
            let w = self.layers@[l]@[i]->0;
            &&& ss.contains(w)
            &&& self.level_of_node@[w as int] == l
            &&& self.index_of_node@[w as int] == i
        } by {
            if l == node_level && i == len {
            } else {
                assert(self.layers@[l]@[i] == mid.layers@[l]@[i]);
                let w = self.layers@[l]@[i]->0;
                assert(s@.contains(w));
                assert(w != v);
            }
        }
    }

    /// Moves `v` to the end of level `new_level`, leaving its old slot empty.
    fn move_node(&mut self, v: usize, new_level: usize, s: Ghost<Set<usize>>)
        requires
            old(self).placed(s@),
            s@.contains(v),
            new_level < old(self).layers@.len(),
            old(self).level_of_node@.len() == old(self).index_of_node@.len(),
        ensures
            final(self).placed(s@),
            final(self).level_of_node@ == old(self).level_of_node@.update(v as int, new_level),
            final(self).index_of_node@.len() == old(self).index_of_node@.len(),
            final(self).index_of_node@[v as int] == old(self).layers@[new_level as int]@.len(),
            final(self).layers@[new_level as int]@.len() == old(self).layers@[new_level as int]@.len() + 1,
            final(self).grid() == grid_move(old(self).grid(), v, new_level as int),
            final(self).layers@.len() == old(self).layers@.len(),
            final(self).node_separation == old(self).node_separation,
            final(self).global_tasks_in_first_row == old(self).global_tasks_in_first_row,
    {
        let ghost mid = *self;
        let l = self.level_of_node[v];
        let i = self.index_of_node[v];
        self.layers[l][i] = None;
        let ghost mid2 = *self;
        let len = self.layers[new_level].len();
        self.layers[new_level].push(Some(v));
        self.level_of_node.set(v, new_level);
        self.index_of_node.set(v, len);
        proof {
            let st = mid.grid();
            let rows = st.0.update(l as int, st.0[l as int].update(i as int, None));
            assert(rows =~= mid2.grid().0);
            assert(self.grid().0 =~= rows.update(new_level as int, rows[new_level as int].push(Some(v))));
        }
        assert forall|u: usize| #[trigger] s@.contains(u) implies {
            &&& u < self.level_of_node@.len()
            &&& self.level_of_node@[u as int] < self.layers@.len()
            &&& self.index_of_node@[u as int] < self.layers@[self.level_of_node@[u as int] as int]@.len()
            &&& self.layers@[self.level_of_node@[u as int] as int]@[self.index_of_node@[u as int] as int]
                == Some(u)
        } by {
            if u != v {
                let lu = mid.level_of_node@[u as int];
                let iu = mid.index_of_node@[u as int];
                assert(mid.layers@[lu as int]@[iu as int] == Some(u));
                assert(lu != l || iu != i);
                assert(mid2.layers@[lu as int]@[iu as int] == Some(u));
            }
        }
        assert forall|ll: int, ii: int|
            0 <= ll < self.layers@.len() && 0 <= ii < self.layers@[ll]@.len() && (#[trigger] self.layers@[ll]@[ii]) is Some
            implies {
            let w = self.layers@[ll]@[ii]->0;
            &&& s@.contains(w)
            &&& self.level_of_node@[w as int] == ll
            &&& self.index_of_node@[w as int] == ii
        } by {
            if ll == new_level && ii == len {
            } else {
                assert(self.layers@[ll]@[ii] == mid2.layers@[ll]@[ii]);
                assert(ll != l || ii != i);
                assert(mid2.layers@[ll]@[ii] == mid.layers@[ll]@[ii]);
                let w = self.layers@[ll]@[ii]->0;
                assert(w != v);
            }
        }
    }

    /// Phase A: places the vertices of component `c` in topological order,
    /// each one level below its lowest placed predecessor (level 0 for a
    /// vertex without predecessors).
    #[verifier::rlimit(100)]
    fn arrange_nodes_in_levels(&mut self, g: &Graph, comps: &Components, c: usize, order: &Vec<usize>)
        requires
            g.wf(),
            comps.partitions(g),
            is_topological_order(g.n as nat, g.edges@, order@),
            old(self).layers@.len() == 0,
            old(self).sized(g.n as nat),
        ensures
            final(self).placed(comp_set(comps, c)),
            levels_respect_edges(g.edges@, final(self).level_of_node@, comp_set(comps, c)),
            final(self).sized(g.n as nat),
            final(self).layers@.len() <= g.n,
            final(self).grid() == phase_a_grid(g, comps.comp_of@, c, old(self).grid(), order@, g.n as int),
            forall|v: usize| #[trigger] comp_set(comps, c).contains(v) ==> final(self).level_of_node@[v as int] == level_below(
                final(self).level_of_node@,
                g.pred@[v as int]@,
            ),
            final(self).node_separation == old(self).node_separation,
            final(self).global_tasks_in_first_row == old(self).global_tasks_in_first_row,
    {
        let ghost es = g.edges@;
        let ghost cs = comp_set(comps, c);
        proof {
            lemma_comp_closed(g, comps, c);
        }
        let n = g.n;
        let ghost start_grid = self.grid();
        let mut t: usize = 0;
        while t < n
            invariant
                g.wf(),
                comps.partitions(g),
                closed_under_lists(g, cs),
                cs == comp_set(comps, c),
                es == g.edges@,
                n == g.n,
                is_topological_order(n as nat, es, order@),
                t <= n,
                self.sized(n as nat),
                self.node_separation == old(self).node_separation,
                self.global_tasks_in_first_row == old(self).global_tasks_in_first_row,
                self.placed(processed(cs, order@, t as int)),
                levels_respect_edges(es, self.level_of_node@, processed(cs, order@, t as int)),
                forall|v: usize| #[trigger] processed(cs, order@, t as int).contains(v) ==> self.level_of_node@[v as int] < t,
                self.layers@.len() <= t,
                self.grid() == phase_a_grid(g, comps.comp_of@, c, start_grid, order@, t as int),
                forall|u: usize| #[trigger] processed(cs, order@, t as int).contains(u) ==> self.level_of_node@[u as int] == level_below(
                    self.level_of_node@,
                    g.pred@[u as int]@,
                ),
            decreases n - t,
        {
            let ghost pt = processed(cs, order@, t as int);
            let v = order[t];
            if comps.comp_of[v] == c {
                assert(cs.contains(v));
                let mut lvl: usize = 0;
                let mut j: usize = 0;
                while j < g.pred[v].len()
                    invariant
                        g.wf(),
                        closed_under_lists(g, cs),
                        es == g.edges@,
                        n == g.n,
                        is_topological_order(n as nat, es, order@),
                        t < n,
                        v == order@[t as int],
                        cs.contains(v),
                        pt == processed(cs, order@, t as int),
                        self.sized(n as nat),
                        forall|u: usize| #[trigger] pt.contains(u) ==> self.level_of_node@[u as int] < t,
                        lvl <= t,
                        forall|q: int| 0 <= q < j ==> self.level_of_node@[#[trigger] g.pred@[v as int]@[q] as int] < lvl,
                        j <= g.pred@[v as int]@.len(),
                        lvl == level_below(self.level_of_node@, g.pred@[v as int]@.subrange(0, j as int)),
                    decreases g.pred@[v as int]@.len() - j,
                {
                    let p = g.pred[v][j];
                    assert(g.pred@[v as int]@.subrange(0, j as int + 1).drop_last() =~= g.pred@[v as int]@.subrange(0, j as int));
                    proof {
                        lemma_pred_processed(g, cs, order@, t as int, v, j as int);
                    }
                    if self.level_of_node[p] + 1 > lvl {
                        lvl = self.level_of_node[p] + 1;
                    }
                    j = j + 1;
                }
                proof {
                    if pt.contains(v) {
                        let a = choose|a: int| 0 <= a < t && order@[a] == v;
                        assert(order@[a] != order@[t as int]);
                    }
                }
                let ghost before = *self;
                assert(g.pred@[v as int]@.subrange(0, j as int) =~= g.pred@[v as int]@);
                assert(lvl == level_below(before.grid().1, g.pred@[v as int]@));
                self.add_node_to_level(v, lvl, Ghost(pt));
                proof {
                    let pt2 = processed(cs, order@, t + 1);
                    assert(pt2 =~= pt.insert(v));
                    assert(g.pred@[v as int]@.subrange(0, j as int) =~= g.pred@[v as int]@);
                    assert forall|u: usize| #[trigger] pt2.contains(u) implies self.level_of_node@[u as int] == level_below(
                        self.level_of_node@,
                        g.pred@[u as int]@,
                    ) by {
                        if u == v {
                            if g.pred@[v as int]@.contains(v) {
                                let q = choose|q: int| 0 <= q < g.pred@[v as int]@.len() && g.pred@[v as int]@[q] == v;
                                let e = choose|e: int| 0 <= e < es.len() && es[e] == (v, v);
                                assert(order@[t as int] == es[e].0 && order@[t as int] == es[e].1);
                            }
                            lemma_level_below_update(before.level_of_node@, g.pred@[v as int]@, v, lvl);
                        } else {
                            let a = choose|a: int| 0 <= a < t && order@[a] == u;
                            if g.pred@[u as int]@.contains(v) {
                                let q = choose|q: int| 0 <= q < g.pred@[u as int]@.len() && g.pred@[u as int]@[q] == v;
                                let e = choose|e: int| 0 <= e < es.len() && es[e] == (v, u);
                                assert(order@[t as int] == es[e].0 && order@[a] == es[e].1);
                            }
                            lemma_level_below_update(before.level_of_node@, g.pred@[u as int]@, v, lvl);
                        }
                    }
                    assert forall|i: int|
                        0 <= i < es.len() && pt2.contains((#[trigger] es[i]).0) && pt2.contains(es[i].1)
                        implies self.level_of_node@[es[i].0 as int] < self.level_of_node@[es[i].1 as int] by {
                        let x = es[i].0;
                        let y = es[i].1;
                        if x == v {
                            if y == v {
                                assert(order@[t as int] == es[i].0);
                            } else {
                                let b = choose|b: int| 0 <= b < t && order@[b] == y;
                                assert(order@[t as int] == es[i].0 && order@[b] == es[i].1);
                            }
                        } else if y == v {
                            assert(g.pred@[v as int]@.contains(x));
                            let q = choose|q: int| 0 <= q < g.pred@[v as int]@.len() && g.pred@[v as int]@[q] == x;
                            assert(before.level_of_node@[g.pred@[v as int]@[q] as int] < lvl);
                        }
                    }
                }
            } else {
                assert(processed(cs, order@, t + 1) =~= pt);
            }
            t = t + 1;
        }
        proof {
            assert(processed(cs, order@, n as int) =~= cs) by {
                assert forall|v: usize| cs.contains(v) implies processed(cs, order@, n as int).contains(v) by {
                    assert(order@.contains(v));
                }
            }
        }
    }

    /// Phase B: moves each vertex of component `c`, from the last to the
    /// first, down to the level just above its highest successor (the
    /// lowest level for a vertex without successors).
    fn move_nodes_up(&mut self, g: &Graph, comps: &Components, c: usize)
        requires
            g.wf(),
            comps.partitions(g),
            c < comps.members@.len(),
            old(self).placed(comp_set(comps, c)),
            levels_respect_edges(g.edges@, old(self).level_of_node@, comp_set(comps, c)),
            old(self).sized(g.n as nat),
        ensures
            final(self).placed(comp_set(comps, c)),
            levels_respect_edges(g.edges@, final(self).level_of_node@, comp_set(comps, c)),
            final(self).sized(g.n as nat),
            final(self).layers@.len() == old(self).layers@.len(),
            final(self).level_of_node@ == relax_up(g, old(self).level_of_node@, old(self).layers@.len() as int, reversed(comps.members@[c as int]@)),
            final(self).grid() == relax_up_grid(g, old(self).grid(), old(self).layers@.len() as int, reversed(comps.members@[c as int]@)),
            final(self).node_separation == old(self).node_separation,
            final(self).global_tasks_in_first_row == old(self).global_tasks_in_first_row,
    {
        let ghost es = g.edges@;
        let ghost cs = comp_set(comps, c);
        proof {
            lemma_comp_closed(g, comps, c);
        }
        let members = &comps.members[c];
        let ghost order = reversed(members@);
        let ghost nl = self.layers@.len() as int;
        let ghost start = self.level_of_node@;
        let ghost start_grid = self.grid();
        let mut k: usize = members.len();
        while k > 0
            invariant
                g.wf(),
                comps.partitions(g),
                c < comps.members@.len(),
                members == comps.members@[c as int],
                closed_under_lists(g, cs),
                cs == comp_set(comps, c),
                es == g.edges@,
                k <= members@.len(),
                self.placed(cs),
                levels_respect_edges(es, self.level_of_node@, cs),
                self.sized(g.n as nat),
                self.layers@.len() == old(self).layers@.len(),
                nl == self.layers@.len(),
                order == reversed(members@),
                self.level_of_node@ == relax_up(g, start, nl, order.subrange(0, members@.len() - k)),
                self.grid() == relax_up_grid(g, start_grid, nl, order.subrange(0, members@.len() - k)),
                self.node_separation == old(self).node_separation,
                self.global_tasks_in_first_row == old(self).global_tasks_in_first_row,
            decreases k,
        {
            k = k - 1;
            let v = members[k];
            assert(cs.contains(v));
            let mut m: usize = self.layers.len();
            let mut j: usize = 0;
            while j < g.succ[v].len()
                invariant
                    g.wf(),
                    closed_under_lists(g, cs),
                    es == g.edges@,
                    cs.contains(v),
                    self.placed(cs),
                    levels_respect_edges(es, self.level_of_node@, cs),
                    self.sized(g.n as nat),
                    m <= self.layers@.len(),
                    self.level_of_node@[v as int] < m,
                    forall|q: int| 0 <= q < j ==> m <= self.level_of_node@[#[trigger] g.succ@[v as int]@[q] as int],
                    j <= g.succ@[v as int]@.len(),
                    nl == self.layers@.len(),
                    m == min_level(self.level_of_node@, g.succ@[v as int]@.subrange(0, j as int), nl),
                decreases g.succ@[v as int]@.len() - j,
            {
                let w = g.succ[v][j];
                assert(g.succ@[v as int]@.subrange(0, j as int + 1).drop_last() =~= g.succ@[v as int]@.subrange(0, j as int));
                proof {
                    lemma_list_edge_succ(g, cs, v, j as int);
                }
                if self.level_of_node[w] < m {
                    m = self.level_of_node[w];
                }
                j = j + 1;
            }
            let new_level = m - 1;
            let ghost lv0 = self.level_of_node@;
            let ghost g0 = self.grid();
            proof {
                assert(g.succ@[v as int]@.subrange(0, j as int) =~= g.succ@[v as int]@);
                let t = members@.len() - k;
                assert(order.subrange(0, t).drop_last() =~= order.subrange(0, t - 1));
                assert(order.subrange(0, t).last() == v);
            }
            if new_level != self.level_of_node[v] {
                let ghost before = *self;
                self.move_node(v, new_level, Ghost(cs));
                proof {
                    assert forall|i: int|
                        0 <= i < es.len() && cs.contains((#[trigger] es[i]).0) && cs.contains(es[i].1)
                        implies self.level_of_node@[es[i].0 as int] < self.level_of_node@[es[i].1 as int] by {
                        let x = es[i].0;
                        let y = es[i].1;
                        assert(before.level_of_node@[x as int] < before.level_of_node@[y as int]);
                        if x == v && y != v {
                            assert(g.succ@[v as int]@.contains(y));
                            let q = choose|q: int| 0 <= q < g.succ@[v as int]@.len() && g.succ@[v as int]@[q] == y;
                            assert(m <= before.level_of_node@[g.succ@[v as int]@[q] as int]);
                        }
                    }
                }
            }
            assert(self.level_of_node@ =~= lv0.update(v as int, new_level));
            assert(new_level == up_target(g, g0, nl, v));
        }
        assert(order.subrange(0, members@.len() as int) =~= order);
    }

    /// Phase C: moves each vertex of component `c`, from the first to the
    /// last, up to the level just below its lowest predecessor (level 0 for
    /// a vertex without predecessors).
    fn move_nodes_down(&mut self, g: &Graph, comps: &Components, c: usize)
        requires
            g.wf(),
            comps.partitions(g),
            c < comps.members@.len(),
            old(self).placed(comp_set(comps, c)),
            levels_respect_edges(g.edges@, old(self).level_of_node@, comp_set(comps, c)),
            old(self).sized(g.n as nat),
        ensures
            final(self).placed(comp_set(comps, c)),
            levels_respect_edges(g.edges@, final(self).level_of_node@, comp_set(comps, c)),
            final(self).sized(g.n as nat),
            final(self).layers@.len() == old(self).layers@.len(),
            final(self).level_of_node@ == relax_down(g, old(self).level_of_node@, comps.members@[c as int]@),
            final(self).grid() == relax_down_grid(g, old(self).grid(), comps.members@[c as int]@),
            forall|v: usize|
                #[trigger] comp_set(comps, c).contains(v) && g.pred@[v as int]@.len() == 0 ==> final(self).level_of_node@[v as int] == 0,
            final(self).node_separation == old(self).node_separation,
            final(self).global_tasks_in_first_row == old(self).global_tasks_in_first_row,
    {
        let ghost es = g.edges@;
        let ghost cs = comp_set(comps, c);
        proof {
            lemma_comp_closed(g, comps, c);
        }
        let members = &comps.members[c];
        let ghost start = self.level_of_node@;
        let ghost start_grid = self.grid();
        let mut k: usize = 0;
        while k < members.len()
            invariant
                g.wf(),
                comps.partitions(g),
                c < comps.members@.len(),
                members == comps.members@[c as int],
                closed_under_lists(g, cs),
                cs == comp_set(comps, c),
                es == g.edges@,
                k <= members@.len(),
                self.placed(cs),
                levels_respect_edges(es, self.level_of_node@, cs),
                self.sized(g.n as nat),
                self.layers@.len() == old(self).layers@.len(),
                self.node_separation == old(self).node_separation,
                self.global_tasks_in_first_row == old(self).global_tasks_in_first_row,
                forall|q: int|
                    0 <= q < k && g.pred@[members@[q] as int]@.len() == 0 ==> self.level_of_node@[#[trigger] members@[q] as int] == 0,
                self.level_of_node@ == relax_down(g, start, members@.subrange(0, k as int)),
                self.grid() == relax_down_grid(g, start_grid, members@.subrange(0, k as int)),
            decreases members@.len() - k,
        {
            let v = members[k];
            assert(cs.contains(v));
            let mut m: usize = 0;
            let mut j: usize = 0;
            while j < g.pred[v].len()
                invariant
                    g.wf(),
                    closed_under_lists(g, cs),
                    es == g.edges@,
                    cs.contains(v),
                    self.placed(cs),
                    levels_respect_edges(es, self.level_of_node@, cs),
                    self.sized(g.n as nat),
                    m <= self.level_of_node@[v as int],
                    j <= g.pred@[v as int]@.len(),
                    j == 0 ==> m == 0,
                    m == level_below(self.level_of_node@, g.pred@[v as int]@.subrange(0, j as int)),
                    forall|q: int| 0 <= q < j ==> self.level_of_node@[#[trigger] g.pred@[v as int]@[q] as int] < m,
                decreases g.pred@[v as int]@.len() - j,
            {
                let p = g.pred[v][j];
                assert(g.pred@[v as int]@.subrange(0, j as int + 1).drop_last() =~= g.pred@[v as int]@.subrange(0, j as int));
                proof {
                    lemma_list_edge_pred(g, cs, v, j as int);
                }
                if self.level_of_node[p] + 1 > m {
                    m = self.level_of_node[p] + 1;
                }
                j = j + 1;
            }
            let ghost lv_before = self.level_of_node@;
            let ghost g0 = self.grid();
            proof {
                assert(g.pred@[v as int]@.subrange(0, j as int) =~= g.pred@[v as int]@);
                assert(members@.subrange(0, k as int + 1).drop_last() =~= members@.subrange(0, k as int));
            }
            if m != self.level_of_node[v] {
                let ghost before = *self;
                self.move_node(v, m, Ghost(cs));
                proof {
                    assert forall|i: int|
                        0 <= i < es.len() && cs.contains((#[trigger] es[i]).0) && cs.contains(es[i].1)
                        implies self.level_of_node@[es[i].0 as int] < self.level_of_node@[es[i].1 as int] by {
                        let x = es[i].0;
                        let y = es[i].1;
                        assert(before.level_of_node@[x as int] < before.level_of_node@[y as int]);
                        if y == v && x != v {
                            assert(g.pred@[v as int]@.contains(x));
                            let q = choose|q: int| 0 <= q < g.pred@[v as int]@.len() && g.pred@[v as int]@[q] == x;
                            assert(before.level_of_node@[g.pred@[v as int]@[q] as int] < m);
                        }
                    }
                }
            }
            proof {
                assert forall|q: int|
                    0 <= q < k + 1 && g.pred@[members@[q] as int]@.len() == 0 implies self.level_of_node@[#[trigger] members@[q] as int] == 0 by {
                    if q < k {
                        assert(members@[q] != v) by {
                            assert(members@[q] < members@[k as int]);
                        }
                        assert(self.level_of_node@[members@[q] as int] == lv_before[members@[q] as int]);
                    } else {
                        assert(m == 0);
                    }
                }
            }
            assert(self.level_of_node@ =~= lv_before.update(v as int, m));
            k = k + 1;
        }
        assert(members@.subrange(0, k as int) =~= members@);
        proof {
            assert forall|v: usize| #[trigger] cs.contains(v) && g.pred@[v as int]@.len() == 0 implies self.level_of_node@[v as int] == 0 by {
                assert(members@.contains(v)) by {
                    assert(comps.members@[comps.comp_of@[v as int] as int]@.contains(v));
                }
                let q = choose|q: int| 0 <= q < members@.len() && members@[q] == v;
                assert(self.level_of_node@[members@[q] as int] == 0);
            }
        }
    }
}

/// The columns the rows give each vertex (its slot on its level), or `old`
/// for a vertex in no slot.
pub open spec fn columns_from_rows(rows: Seq<Seq<Option<usize>>>, level: Seq<usize>, old: Seq<usize>) -> Seq<usize> {
    Seq::new(
        old.len(),
        |v: int|
            {
                let l = level[v] as int;
                if 0 <= l < rows.len() && exists|i: int| 0 <= i < rows[l].len() && rows[l][i] == Some(v as usize) {
                    (choose|i: int| 0 <= i < rows[l].len() && rows[l][i] == Some(v as usize)) as usize
                } else {
                    old[v]
                }
            },
    )
}

/// The largest number of vertices on one row (0 for no row).
pub open spec fn max_occupied_rows(rows: Seq<Seq<Option<usize>>>) -> nat
    decreases rows.len(),
{
    if rows.len() == 0 {
        0
    } else {
        let rest = max_occupied_rows(rows.drop_last());
        let last = occupied(rows.last());
        if last > rest {
            last
        } else {
            rest
        }
    }
}

/// The grid after centring: every row padded as [`centred_row`] says for the
/// widest row, each vertex at its new column.
pub open spec fn center_grid(st: Grid) -> Grid {
    let w = max_occupied_rows(st.0) as int;
    let rows = Seq::new(st.0.len(), |l: int| centred_row(st.0[l], w));
    (rows, st.1, columns_from_rows(rows, st.1, st.2))
}

/// The grid of component `c` after the whole layout, from the grid `st`
/// before it: Phase A over `order`, Phases B and C over the members, centring
/// and up to ten rounds of refinement (the lift of sources to the top level
/// changes nothing, since Phase C already put them there).
pub open spec fn aligned_grid(g: &Graph, comps: &Components, c: usize, st: Grid, order: Seq<usize>) -> Grid {
    let members = comps.members@[c as int]@;
    let a = phase_a_grid(g, comps.comp_of@, c, st, order, g.n as int);
    let b = relax_up_grid(g, a, a.0.len() as int, reversed(members));
    let d = relax_down_grid(g, b, members);
    refine_rounds(g, center_grid(d), 10)
}

proof fn lemma_max_occupied_rows(layers: Seq<Vec<Option<usize>>>)
    ensures
        max_occupied(layers) == max_occupied_rows(Seq::new(layers.len(), |l: int| layers[l]@)),
    decreases layers.len(),
{
    if layers.len() > 0 {
        lemma_max_occupied_rows(layers.drop_last());
        assert(Seq::new(layers.len(), |l: int| layers[l]@).drop_last() =~= Seq::new(
            layers.drop_last().len(),
            |l: int| layers.drop_last()[l]@,
        ));
    }
}

/// The grid after `v` is appended to level `lvl`, adding empty levels as
/// needed.
pub open spec fn grid_place(st: Grid, v: usize, lvl: int) -> Grid {
    let rows = if lvl < st.0.len() {
        st.0
    } else {
        st.0 + Seq::new((lvl + 1 - st.0.len()) as nat, |i: int| Seq::<Option<usize>>::empty())
    };
    (rows.update(lvl, rows[lvl].push(Some(v))), st.1.update(v as int, lvl as usize), st.2.update(v as int, rows[lvl].len() as usize))
}

/// Phase A on the grid over the first `t` vertices of `order`: each vertex
/// of component `c` is appended to the level below its lowest predecessor.
pub open spec fn phase_a_grid(g: &Graph, comp_of: Seq<usize>, c: usize, st: Grid, order: Seq<usize>, t: int) -> Grid
    decreases t,
{
    if t <= 0 {
        st
    } else {
        let s = phase_a_grid(g, comp_of, c, st, order, t - 1);
        let v = order[t - 1];
        if comp_of[v as int] == c {
            grid_place(s, v, level_below(s.1, g.pred@[v as int]@))
        } else {
            s
        }
    }
}

/// The grid after `v` leaves its slot (which becomes empty) and is appended
/// to level `nl`; every other slot, level and column stays as it was.
pub open spec fn grid_move(st: Grid, v: usize, nl: int) -> Grid {
    let lv = st.1[v as int] as int;
    let iv = st.2[v as int] as int;
    let rows = st.0.update(lv, st.0[lv].update(iv, None));
    (
        rows.update(nl, rows[nl].push(Some(v))),
        st.1.update(v as int, nl as usize),
        st.2.update(v as int, rows[nl].len() as usize),
    )
}

/// The level Phase B gives `v` on grid `st` with `nl` levels.
pub open spec fn up_target(g: &Graph, st: Grid, nl: int, v: usize) -> int {
    let m = min_level(st.1, g.succ@[v as int]@, nl);
    if m > 0 {
        m - 1
    } else {
        0
    }
}

/// Phase B on the grid, vertex by vertex in `order`: a vertex whose level
/// changes leaves an empty slot and is appended to its new level.
pub open spec fn relax_up_grid(g: &Graph, st: Grid, nl: int, order: Seq<usize>) -> Grid
    decreases order.len(),
{
    if order.len() == 0 {
        st
    } else {
        let t = relax_up_grid(g, st, nl, order.drop_last());
        let v = order.last();
        let new = up_target(g, t, nl, v);
        if new != t.1[v as int] {
            grid_move(t, v, new)
        } else {
            t
        }
    }
}

/// Phase C on the grid, vertex by vertex in `order`.
pub open spec fn relax_down_grid(g: &Graph, st: Grid, order: Seq<usize>) -> Grid
    decreases order.len(),
{
    if order.len() == 0 {
        st
    } else {
        let t = relax_down_grid(g, st, order.drop_last());
        let v = order.last();
        let new = level_below(t.1, g.pred@[v as int]@);
        if new != t.1[v as int] {
            grid_move(t, v, new)
        } else {
            t
        }
    }
}

/// The lowest level among the vertices of `list`, or `init` if lower.
pub open spec fn min_level(level: Seq<usize>, list: Seq<usize>, init: int) -> int
    decreases list.len(),
{
    if list.len() == 0 {
        init
    } else {
        let r = min_level(level, list.drop_last(), init);
        let x = level[list.last() as int] as int;
        if x < r {
            x
        } else {
            r
        }
    }
}

/// One more than the highest level among the vertices of `list`, or 0 when
/// `list` is empty.
pub open spec fn level_below(level: Seq<usize>, list: Seq<usize>) -> int
    decreases list.len(),
{
    if list.len() == 0 {
        0
    } else {
        let r = level_below(level, list.drop_last());
        let x = level[list.last() as int] + 1;
        if x > r {
            x
        } else {
            r
        }
    }
}

/// Changing the level of a vertex outside `list` leaves `level_below` as it is.
proof fn lemma_level_below_update(level: Seq<usize>, list: Seq<usize>, v: usize, x: usize)
    requires
        !list.contains(v),
        v < level.len(),
        forall|q: int| 0 <= q < list.len() ==> #[trigger] list[q] < level.len(),
    ensures
        level_below(level.update(v as int, x), list) == level_below(level, list),
    decreases list.len(),
{
    if list.len() > 0 {
        let front = list.drop_last();
        assert(!front.contains(v)) by {
            if front.contains(v) {
                let q = choose|q: int| 0 <= q < front.len() && front[q] == v;
                assert(list[q] == v);
            }
        }
        assert(list.last() != v) by {
            assert(list[list.len() - 1] == list.last());
        }
        assert(list[list.len() - 1] < level.len());
        assert forall|q: int| 0 <= q < front.len() implies #[trigger] front[q] < level.len() by {
            assert(front[q] == list[q]);
        }
        lemma_level_below_update(level, front, v, x);
    }
}

/// `s` read from the end.
pub open spec fn reversed(s: Seq<usize>) -> Seq<usize> {
    Seq::new(s.len(), |i: int| s[s.len() - 1 - i])
}

/// Phase B on the levels, vertex by vertex in `order`: each vertex goes to
/// the level above its highest successor, or to the last of `nl` levels when
/// it has none (never above level 0).
pub open spec fn relax_up(g: &Graph, level: Seq<usize>, nl: int, order: Seq<usize>) -> Seq<usize>
    decreases order.len(),
{
    if order.len() == 0 {
        level
    } else {
        let l = relax_up(g, level, nl, order.drop_last());
        let v = order.last();
        let m = min_level(l, g.succ@[v as int]@, nl);
        l.update(v as int, if m > 0 { (m - 1) as usize } else { 0usize })
    }
}

/// Phase C on the levels, vertex by vertex in `order`: each vertex goes to
/// the level below its lowest predecessor, or to level 0 when it has none.
pub open spec fn relax_down(g: &Graph, level: Seq<usize>, order: Seq<usize>) -> Seq<usize>
    decreases order.len(),
{
    if order.len() == 0 {
        level
    } else {
        let l = relax_down(g, level, order.drop_last());
        let v = order.last();
        l.update(v as int, level_below(l, g.pred@[v as int]@) as usize)
    }
}

/// The vertices of `cs` among the first `t` of `order`.
pub open spec fn processed(cs: Set<usize>, order: Seq<usize>, t: int) -> Set<usize> {
    Set::new(|v: usize| cs.contains(v) && exists|a: int| 0 <= a < t && order[a] == v)
}

proof fn lemma_comp_closed(g: &Graph, comps: &Components, c: usize)
    requires
        g.wf(),
        comps.partitions(g),
    ensures
        closed_under_lists(g, comp_set(comps, c)),
{
    let cs = comp_set(comps, c);
    assert forall|v: usize, j: int| cs.contains(v) && 0 <= j < g.succ@[v as int]@.len() implies cs.contains(
        #[trigger] g.succ@[v as int]@[j],
    ) by {
        let w = g.succ@[v as int]@[j];
        let i = choose|i: int| 0 <= i < g.edges@.len() && g.edges@[i] == (v, w);
        assert(comps.comp_of@[g.edges@[i].0 as int] == comps.comp_of@[g.edges@[i].1 as int]);
    }
    assert forall|v: usize, j: int| cs.contains(v) && 0 <= j < g.pred@[v as int]@.len() implies cs.contains(
        #[trigger] g.pred@[v as int]@[j],
    ) by {
        let w = g.pred@[v as int]@[j];
        let i = choose|i: int| 0 <= i < g.edges@.len() && g.edges@[i] == (w, v);
        assert(comps.comp_of@[g.edges@[i].0 as int] == comps.comp_of@[g.edges@[i].1 as int]);
    }
}

/// A predecessor of the vertex at position `t` of a topological order was
/// processed before it.
proof fn lemma_pred_processed(g: &Graph, cs: Set<usize>, order: Seq<usize>, t: int, v: usize, j: int)
    requires
        g.wf(),
        closed_under_lists(g, cs),
        is_topological_order(g.n as nat, g.edges@, order),
        0 <= t < g.n,
        order[t] == v,
        cs.contains(v),
        0 <= j < g.pred@[v as int]@.len(),
    ensures
        processed(cs, order, t).contains(g.pred@[v as int]@[j]),
{
    let p = g.pred@[v as int]@[j];
    let i = choose|i: int| 0 <= i < g.edges@.len() && g.edges@[i] == (p, v);
    assert(order.contains(p));
    let b = choose|b: int| 0 <= b < order.len() && order[b] == p;
    assert(order[b] == g.edges@[i].0 && order[t] == g.edges@[i].1);
    assert(cs.contains(p));
}

/// The successor lists give edges inside the component.
proof fn lemma_list_edge_succ(g: &Graph, cs: Set<usize>, v: usize, j: int)
    requires
        g.wf(),
        closed_under_lists(g, cs),
        cs.contains(v),
        0 <= j < g.succ@[v as int]@.len(),
    ensures
        cs.contains(g.succ@[v as int]@[j]),
        has_edge(g.edges@, v, g.succ@[v as int]@[j]),
{
}

/// The predecessor lists give edges inside the component.
proof fn lemma_list_edge_pred(g: &Graph, cs: Set<usize>, v: usize, j: int)
    requires
        g.wf(),
        closed_under_lists(g, cs),
        cs.contains(v),
        0 <= j < g.pred@[v as int]@.len(),
    ensures
        cs.contains(g.pred@[v as int]@[j]),
        has_edge(g.edges@, g.pred@[v as int]@[j], v),
{
}

/// Number of occupied slots of a row.
pub open spec fn occupied(row: Seq<Option<usize>>) -> nat
    decreases row.len(),
{
    if row.len() == 0 {
        0
    } else {
        occupied(row.drop_last()) + if row.last() is Some {
            1nat
        } else {
            0nat
        }
    }
}

/// The vertices held by a row.
pub open spec fn row_vertices(row: Seq<Option<usize>>) -> Set<int>
    decreases row.len(),
{
    if row.len() == 0 {
        Set::empty()
    } else if row.last() is Some {
        row_vertices(row.drop_last()).insert(row.last()->0 as int)
    } else {
        row_vertices(row.drop_last())
    }
}

proof fn lemma_row_vertices(row: Seq<Option<usize>>)
    requires
        forall|i: int, j: int|
            0 <= i < j < row.len() && #[trigger] row[i] is Some && #[trigger] row[j] is Some ==> row[i] != row[j],
    ensures
        row_vertices(row).finite(),
        row_vertices(row).len() == occupied(row),
        forall|x: int| #[trigger] row_vertices(row).contains(x) ==> exists|i: int| 0 <= i < row.len() && row[i] is Some && row[i]->0 as int == x,
    decreases row.len(),
{
    if row.len() > 0 {
        let front = row.drop_last();
        assert forall|i: int, j: int|
            0 <= i < j < front.len() && #[trigger] front[i] is Some && #[trigger] front[j] is Some implies front[i] != front[j] by {
            assert(front[i] == row[i] && front[j] == row[j]);
        }
        lemma_row_vertices(front);
        assert forall|x: int| #[trigger] row_vertices(row).contains(x) implies exists|i: int| 0 <= i < row.len() && row[i] is Some && row[i]->0 as int == x by {
            if row_vertices(front).contains(x) {
                let i = choose|i: int| 0 <= i < front.len() && front[i] is Some && front[i]->0 as int == x;
                assert(row[i] == front[i]);
            } else {
                assert(row[row.len() - 1] == row.last());
            }
        }
        if row.last() is Some {
            let x = row.last()->0 as int;
            if row_vertices(front).contains(x) {
                let i = choose|i: int| 0 <= i < front.len() && front[i] is Some && front[i]->0 as int == x;
                assert(row[i] == front[i]);
                assert(row[row.len() - 1] == row.last());
            }
        }
    }
}

/// A row of distinct vertices below `n` holds at most `n` of them.
proof fn lemma_occupied_le(row: Seq<Option<usize>>, n: nat)
    requires
        forall|i: int| 0 <= i < row.len() && #[trigger] row[i] is Some ==> row[i]->0 < n,
        forall|i: int, j: int|
            0 <= i < j < row.len() && #[trigger] row[i] is Some && #[trigger] row[j] is Some ==> row[i] != row[j],
    ensures
        occupied(row) <= n,
{
    lemma_row_vertices(row);
    vstd::set_lib::lemma_int_range(0, n as int);
    assert forall|x: int| row_vertices(row).contains(x) implies vstd::set_lib::set_int_range(0, n as int).contains(x) by {
        let i = choose|i: int| 0 <= i < row.len() && row[i] is Some && row[i]->0 as int == x;
    }
    vstd::set_lib::lemma_len_subset(row_vertices(row), vstd::set_lib::set_int_range(0, n as int));
}

/// Counts the occupied slots of `row`.
pub fn count_occupied(row: &Vec<Option<usize>>) -> (r: usize)
    ensures
        r == occupied(row@),
{
    let mut cnt: usize = 0;
    let mut i: usize = 0;
    while i < row.len()
        invariant
            i <= row@.len(),
            cnt == occupied(row@.subrange(0, i as int)),
            cnt <= i,
        decreases row@.len() - i,
    {
        assert(row@.subrange(0, i as int + 1).drop_last() =~= row@.subrange(0, i as int));
        if row[i].is_some() {
            cnt = cnt + 1;
        }
        i = i + 1;
    }
    assert(row@.subrange(0, i as int) =~= row@);
    cnt
}

/// `row` is `len` slots long and every slot but the first is occupied.
pub open spec fn full_row(row: Seq<Option<usize>>, len: nat) -> bool {
    &&& row.len() == len
    &&& forall|i: int| 1 <= i < len ==> (#[trigger] row[i]) is Some
}

/// The occupied slots of a row, in order.
pub open spec fn row_entries(row: Seq<Option<usize>>) -> Seq<Option<usize>>
    decreases row.len(),
{
    if row.len() == 0 {
        Seq::empty()
    } else if row.last() is Some {
        row_entries(row.drop_last()).push(row.last())
    } else {
        row_entries(row.drop_last())
    }
}

/// A row centred for width `w`: `(w - k) / 2 + 1` empty slots, its `k`
/// vertices in order, then `(w - k) / 2` empty slots.
pub open spec fn centred_row(row: Seq<Option<usize>>, w: int) -> Seq<Option<usize>> {
    let k = occupied(row) as int;
    let pad = (w - k) / 2;
    Seq::new((pad + 1) as nat, |i: int| None::<usize>) + row_entries(row) + Seq::new(pad as nat, |i: int| None::<usize>)
}

/// The levels of the grid after centring: each at most `w + 1` long and
/// starting with an empty slot.
pub open spec fn centred(layers: Seq<Vec<Option<usize>>>, w: nat) -> bool {
    forall|l: int|
        0 <= l < layers.len() ==> (#[trigger] layers[l])@.len() <= w + 1 && layers[l]@.len() >= 1
            && layers[l]@[0] is None
}

impl GraphLayout {
    /// The occupied slots of a level hold distinct vertices below `n`.
    proof fn lemma_level_occupied_le(&self, cs: Set<usize>, n: nat, l: int)
        requires
            self.placed(cs),
            self.sized(n),
            0 <= l < self.layers@.len(),
        ensures
            occupied(self.layers@[l]@) <= n,
    {
        let row = self.layers@[l]@;
        assert forall|i: int| 0 <= i < row.len() && #[trigger] row[i] is Some implies row[i]->0 < n by {
            assert(self.layers@[l]@[i] is Some);
        }
        assert forall|i: int, j: int|
            0 <= i < j < row.len() && #[trigger] row[i] is Some && #[trigger] row[j] is Some implies row[i] != row[j] by {
            assert(self.layers@[l]@[i] is Some);
            assert(self.layers@[l]@[j] is Some);
        }
        lemma_occupied_le(row, n);
    }

    /// Drops the empty slots of every level, then pads it on both sides so
    /// that all levels line up: `(w - k) / 2 + 1` empty slots before the `k`
    /// vertices of a level and `(w - k) / 2` after them, `w` being the largest
    /// number of vertices on one level. Returns `w`.
    fn center_levels(&mut self, cs: Ghost<Set<usize>>, n: usize) -> (w: usize)
        requires
            old(self).placed(cs@),
            old(self).sized(n as nat),
            old(self).layers@.len() > 0,
        ensures
            final(self).placed(cs@),
            final(self).sized(n as nat),
            final(self).level_of_node@ == old(self).level_of_node@,
            final(self).layers@.len() == old(self).layers@.len(),
            w <= n,
            w == max_occupied(old(self).layers@),
            forall|l: int| 0 <= l < final(self).layers@.len() ==> (#[trigger] final(self).layers@[l])@ == centred_row(old(self).layers@[l]@, w as int),
            final(self).grid() == center_grid(old(self).grid()),
            centred(final(self).layers@, w as nat),
            exists|lw: int| 0 <= lw < final(self).layers@.len() && full_row(#[trigger] final(self).layers@[lw]@, (w + 1) as nat),
            final(self).node_separation == old(self).node_separation,
            final(self).global_tasks_in_first_row == old(self).global_tasks_in_first_row,
    {
        let mut max_len: usize = 0;
        let mut arg: usize = 0;
        let mut l: usize = 0;
        while l < self.layers.len()
            invariant
                self.placed(cs@),
                self.sized(n as nat),
                l <= self.layers@.len(),
                max_len <= n,
                arg < self.layers@.len(),
                l > 0 ==> arg < l && occupied(self.layers@[arg as int]@) == max_len,
                forall|ll: int| 0 <= ll < l ==> occupied(#[trigger] self.layers@[ll]@) <= max_len,
            decreases self.layers@.len() - l,
        {
            let cnt = count_occupied(&self.layers[l]);
            proof {
                self.lemma_level_occupied_le(cs@, n as nat, l as int);
            }
            if cnt > max_len || l == 0 {
                max_len = cnt;
                arg = l;
            }
            l = l + 1;
        }
        proof {
            lemma_max_occupied(self.layers@, max_len as nat);
        }
        let ghost old_self = *self;
        let mut new_layers: Vec<Vec<Option<usize>>> = Vec::new();
        let mut l: usize = 0;
        while l < self.layers.len()
            invariant
                old_self.placed(cs@),
                old_self.sized(n as nat),
                self.layers == old_self.layers,
                self.level_of_node == old_self.level_of_node,
                self.index_of_node@.len() == n,
                self.node_separation == old_self.node_separation,
                self.global_tasks_in_first_row == old_self.global_tasks_in_first_row,
                l <= self.layers@.len(),
                max_len <= n,
                forall|ll: int| 0 <= ll < self.layers@.len() ==> occupied(#[trigger] self.layers@[ll]@) <= max_len,
                new_layers@.len() == l,
                centred(new_layers@, max_len as nat),
                arg < self.layers@.len(),
                occupied(self.layers@[arg as int]@) == max_len,
                l > arg ==> full_row(new_layers@[arg as int]@, (max_len + 1) as nat),
                forall|ll: int| 0 <= ll < l ==> (#[trigger] new_layers@[ll])@ == centred_row(old_self.layers@[ll]@, max_len as int),
                forall|ll: int, i: int|
                    0 <= ll < l && 0 <= i < new_layers@[ll]@.len() && (#[trigger] new_layers@[ll]@[i]) is Some ==> {
                        let w = new_layers@[ll]@[i]->0;
                        &&& cs@.contains(w)
                        &&& self.level_of_node@[w as int] == ll
                        &&& self.index_of_node@[w as int] == i
                    },
                forall|v: usize|
                    #[trigger] cs@.contains(v) && self.level_of_node@[v as int] < l ==> {
                        &&& self.index_of_node@[v as int] < new_layers@[self.level_of_node@[v as int] as int]@.len()
                        &&& new_layers@[self.level_of_node@[v as int] as int]@[self.index_of_node@[v as int] as int]
                            == Some(v)
                    },
                forall|v: usize|
                    #[trigger] cs@.contains(v) && self.level_of_node@[v as int] >= l ==> self.index_of_node@[v as int]
                        == old_self.index_of_node@[v as int],
                forall|u: int| 0 <= u < n && !cs@.contains(u as usize) ==> #[trigger] self.index_of_node@[u] == old_self.index_of_node@[u],
            decreases self.layers@.len() - l,
        {
            let ghost row_start = *self;
            let ghost old_row = self.layers@[l as int]@;
            let cnt = count_occupied(&self.layers[l]);
            let pad = (max_len - cnt) / 2;
            let mut row: Vec<Option<usize>> = Vec::new();
            let lead = pad + 1;
            let mut p: usize = 0;
            while p < lead
                invariant
                    lead == pad + 1,
                    p <= lead,
                    row@.len() == p,
                    forall|j: int| 0 <= j < p ==> (#[trigger] row@[j]) is None,
                decreases lead - p,
            {
                row.push(None);
                p = p + 1;
            }
            assert(row@ =~= Seq::new(lead as nat, |x: int| None::<usize>) + row_entries(old_row.subrange(0, 0)));
            let mut i: usize = 0;
            while i < self.layers[l].len()
                invariant
                    old_self.placed(cs@),
                    old_self.sized(n as nat),
                    self.layers == old_self.layers,
                    self.level_of_node == old_self.level_of_node,
                    self.index_of_node@.len() == n,
                    self.node_separation == old_self.node_separation,
                    self.global_tasks_in_first_row == old_self.global_tasks_in_first_row,
                    l < self.layers@.len(),
                    old_row == self.layers@[l as int]@,
                    i <= old_row.len(),
                    row@.len() == pad + 1 + occupied(old_row.subrange(0, i as int)),
                    row@[0] is None,
                    lead == pad + 1,
                    forall|j: int| lead <= j < row@.len() ==> (#[trigger] row@[j]) is Some,
                    row@ == Seq::new(lead as nat, |x: int| None::<usize>) + row_entries(old_row.subrange(0, i as int)),
                    forall|j: int| 0 <= j < row@.len() && (#[trigger] row@[j]) is Some ==> {
                        let w = row@[j]->0;
                        &&& cs@.contains(w)
                        &&& self.level_of_node@[w as int] == l
                        &&& self.index_of_node@[w as int] == j
                        &&& old_self.index_of_node@[w as int] < i
                    },
                    forall|v: usize|
                        #[trigger] cs@.contains(v) && self.level_of_node@[v as int] == l
                            && old_self.index_of_node@[v as int] < i ==> {
                            &&& self.index_of_node@[v as int] < row@.len()
                            &&& row@[self.index_of_node@[v as int] as int] == Some(v)
                        },
                    forall|v: usize|
                        #[trigger] cs@.contains(v) && (self.level_of_node@[v as int] != l
                            || old_self.index_of_node@[v as int] >= i) ==> self.index_of_node@[v as int]
                            == row_start.index_of_node@[v as int],
                    forall|u: int| 0 <= u < n && !cs@.contains(u as usize) ==> #[trigger] self.index_of_node@[u] == old_self.index_of_node@[u],
                decreases old_row.len() - i,
            {
                assert(old_row.subrange(0, i as int + 1).drop_last() =~= old_row.subrange(0, i as int));
                assert(old_row.subrange(0, i as int + 1).last() == old_row[i as int]);
                let ghost nones = Seq::new(lead as nat, |x: int| None::<usize>);
                let ghost ents = row_entries(old_row.subrange(0, i as int));
                if let Some(v) = self.layers[l][i] {
                    assert(old_self.layers@[l as int]@[i as int] is Some);
                    let ghost prev_row = row@;
                    let ghost prev_idx = self.index_of_node@;
                    self.index_of_node.set(v, row.len());
                    row.push(Some(v));
                    assert forall|j: int| 0 <= j < row@.len() && (#[trigger] row@[j]) is Some implies {
                        let w = row@[j]->0;
                        &&& cs@.contains(w)
                        &&& self.level_of_node@[w as int] == l
                        &&& self.index_of_node@[w as int] == j
                        &&& old_self.index_of_node@[w as int] < i + 1
                    } by {
                        if j < prev_row.len() {
                            assert(row@[j] == prev_row[j]);
                        }
                    }
                    assert forall|u: usize|
                        #[trigger] cs@.contains(u) && self.level_of_node@[u as int] == l
                            && old_self.index_of_node@[u as int] < i + 1 implies {
                        &&& self.index_of_node@[u as int] < row@.len()
                        &&& row@[self.index_of_node@[u as int] as int] == Some(u)
                    } by {
                        if u != v {
                            assert(old_self.index_of_node@[u as int] != i);
                            assert(prev_row[prev_idx[u as int] as int] == Some(u));
                        }
                    }
                    assert(row@ =~= nones + ents.push(Some(v)));
                }
                i = i + 1;
            }
            assert(old_row.subrange(0, i as int) =~= old_row);
            let ghost front = row@;
            assert forall|v: usize|
                #[trigger] cs@.contains(v) && self.level_of_node@[v as int] == l implies {
                &&& self.index_of_node@[v as int] < row@.len()
                &&& row@[self.index_of_node@[v as int] as int] == Some(v)
            } by {
                assert(old_self.index_of_node@[v as int] < i);
            }
            let mut p: usize = 0;
            while p < pad
                invariant
                    p <= pad,
                    row@.len() == pad + 1 + cnt + p,
                    row@[0] is None,
                    lead == pad + 1,
                    forall|j: int| lead <= j < lead + cnt ==> (#[trigger] row@[j]) is Some,
                    row@ == front + Seq::new(p as nat, |x: int| None::<usize>),
                    self.layers == old_self.layers,
                    self.level_of_node == old_self.level_of_node,
                    forall|j: int| 0 <= j < row@.len() && (#[trigger] row@[j]) is Some ==> {
                        let w = row@[j]->0;
                        &&& cs@.contains(w)
                        &&& self.level_of_node@[w as int] == l
                        &&& self.index_of_node@[w as int] == j
                    },
                    forall|v: usize|
                        #[trigger] cs@.contains(v) && self.level_of_node@[v as int] == l ==> {
                            &&& self.index_of_node@[v as int] < row@.len()
                            &&& row@[self.index_of_node@[v as int] as int] == Some(v)
                        },
                decreases pad - p,
            {
                let ghost prev_row = row@;
                row.push(None);
                assert(row@ =~= front + Seq::new((p + 1) as nat, |x: int| None::<usize>));
                assert forall|j: int| 0 <= j < row@.len() && (#[trigger] row@[j]) is Some implies {
                    let w = row@[j]->0;
                    &&& cs@.contains(w)
                    &&& self.level_of_node@[w as int] == l
                    &&& self.index_of_node@[w as int] == j
                } by {
                    assert(row@[j] == prev_row[j]);
                }
                assert forall|v: usize|
                    #[trigger] cs@.contains(v) && self.level_of_node@[v as int] == l implies {
                    &&& self.index_of_node@[v as int] < row@.len()
                    &&& row@[self.index_of_node@[v as int] as int] == Some(v)
                } by {
                    assert(row@[self.index_of_node@[v as int] as int] == prev_row[self.index_of_node@[v as int] as int]);
                }
                p = p + 1;
            }
            assert(row@.len() <= max_len + 1);
            assert(row@ =~= centred_row(old_row, max_len as int));
            let ghost prev_new = new_layers@;
            new_layers.push(row);
            proof {
                assert forall|ll: int| 0 <= ll < l + 1 implies (#[trigger] new_layers@[ll])@ == centred_row(old_self.layers@[ll]@, max_len as int) by {
                    if ll < l {
                        assert(new_layers@[ll] == prev_new[ll]);
                    }
                }
                if l == arg {
                    assert(pad == 0);
                    assert(full_row(new_layers@[arg as int]@, (max_len + 1) as nat));
                } else if l > arg {
                    assert(new_layers@[arg as int] == prev_new[arg as int]);
                }
            }
            assert forall|ll: int, i: int|
                0 <= ll < l + 1 && 0 <= i < new_layers@[ll]@.len() && (#[trigger] new_layers@[ll]@[i]) is Some implies {
                let w = new_layers@[ll]@[i]->0;
                &&& cs@.contains(w)
                &&& self.level_of_node@[w as int] == ll
                &&& self.index_of_node@[w as int] == i
            } by {
                if ll < l {
                    assert(new_layers@[ll] == prev_new[ll]);
                    let w = new_layers@[ll]@[i]->0;
                }
            }
            assert forall|v: usize|
                #[trigger] cs@.contains(v) && self.level_of_node@[v as int] < l + 1 implies {
                &&& self.index_of_node@[v as int] < new_layers@[self.level_of_node@[v as int] as int]@.len()
                &&& new_layers@[self.level_of_node@[v as int] as int]@[self.index_of_node@[v as int] as int] == Some(v)
            } by {
                if self.level_of_node@[v as int] < l {
                    assert(new_layers@[self.level_of_node@[v as int] as int] == prev_new[self.level_of_node@[v as int] as int]);
                }
            }
            l = l + 1;
        }
        self.layers = new_layers;
        assert(full_row(self.layers@[arg as int]@, (max_len + 1) as nat));
        proof {
            lemma_max_occupied_rows(old_self.layers@);
            let st = old_self.grid();
            let cg = center_grid(st);
            assert(self.placed(cs@));
            assert(self.grid().0 =~= cg.0) by {
                assert forall|ll: int| 0 <= ll < cg.0.len() implies self.grid().0[ll] == cg.0[ll] by {
                    assert(st.0[ll] == old_self.layers@[ll]@);
                }
            }
            assert(self.grid().2 =~= cg.2) by {
                assert forall|u: int| 0 <= u < n implies #[trigger] self.index_of_node@[u] == cg.2[u] by {
                    let rows = cg.0;
                    let lv = self.level_of_node@[u] as int;
                    if cs@.contains(u as usize) {
                        assert(rows[lv][self.index_of_node@[u] as int] == Some(u as usize));
                        let ci = choose|i: int| 0 <= i < rows[lv].len() && rows[lv][i] == Some(u as usize);
                        assert(self.layers@[lv]@[ci] is Some);
                    } else {
                        if 0 <= lv < rows.len() && exists|i: int| 0 <= i < rows[lv].len() && rows[lv][i] == Some(u as usize) {
                            let ci = choose|i: int| 0 <= i < rows[lv].len() && rows[lv][i] == Some(u as usize);
                            assert(self.layers@[lv]@[ci] is Some);
                        }
                    }
                }
            }
        }
        max_len
    }
}

/// Every level is at most `w` slots long.
pub open spec fn rows_within(layers: Seq<Vec<Option<usize>>>, w: nat) -> bool {
    forall|l: int| 0 <= l < layers.len() ==> (#[trigger] layers[l])@.len() <= w
}

/// Whether two levels are equal or adjacent.
fn near(a: usize, b: usize) -> (r: bool)
    ensures
        r == (a <= b + 1 && b <= a + 1),
{
    if a >= b {
        a - b < 2
    } else {
        b - a < 2
    }
}

/// The columns of the vertices of `list` on level `l` or an adjacent one,
/// in list order.
pub open spec fn near_columns(level: Seq<usize>, index: Seq<usize>, list: Seq<usize>, l: int) -> Seq<usize>
    decreases list.len(),
{
    if list.len() == 0 {
        Seq::empty()
    } else {
        let rest = near_columns(level, index, list.drop_last(), l);
        let w = list.last() as int;
        if level[w] <= l + 1 && l <= level[w] + 1 {
            rest.push(index[w])
        } else {
            rest
        }
    }
}

/// The number of entries of `cols` right of `x` (`right`) or left of it.
pub open spec fn count_side(cols: Seq<usize>, x: usize, right: bool) -> nat
    decreases cols.len(),
{
    if cols.len() == 0 {
        0
    } else {
        count_side(cols.drop_last(), x, right) + if (right && cols.last() > x) || (!right && cols.last() < x) {
            1nat
        } else {
            0nat
        }
    }
}

/// For columns `a` of the right vertex's successors and `b` of the left
/// vertex's: the number of pairs that cross as they stand (`right`), or that
/// would cross after a swap.
pub open spec fn crossing_count(a: Seq<usize>, b: Seq<usize>, right: bool) -> nat
    decreases a.len(),
{
    if a.len() == 0 {
        0
    } else {
        crossing_count(a.drop_last(), b, right) + count_side(b, a.last(), right)
    }
}

/// The rows, levels and columns of a layout state, as plain values.
pub type Grid = (Seq<Seq<Option<usize>>>, Seq<usize>, Seq<usize>);

/// Swapping `left` and its right neighbour `node` on level `l` of grid `st`
/// leaves fewer crossings among their edges to the same or the next level.
pub open spec fn grid_swap_reduces(g: &Graph, st: Grid, node: usize, left: usize, l: int) -> bool {
    let a = near_columns(st.1, st.2, g.succ@[node as int]@, l);
    let b = near_columns(st.1, st.2, g.succ@[left as int]@, l);
    crossing_count(a, b, false) < crossing_count(a, b, true)
}

/// One step of the crossing pass on level `l`: the pair of slots `i - 1`
/// and `i`, swapped when both hold a vertex and the swap reduces crossings.
pub open spec fn cross_step(g: &Graph, st: Grid, l: int, i: int) -> Grid {
    let row = st.0[l];
    if 1 <= i < row.len() && row[i - 1] is Some && row[i] is Some {
        let left = row[i - 1]->0;
        let node = row[i]->0;
        if grid_swap_reduces(g, st, node, left, l) {
            (
                st.0.update(l, row.update(i, Some(left)).update(i - 1, Some(node))),
                st.1,
                st.2.update(left as int, i as usize).update(node as int, (i - 1) as usize),
            )
        } else {
            st
        }
    } else {
        st
    }
}

/// The crossing pass on level `l` up to (not including) the pair ending at slot `k`.
pub open spec fn cross_row(g: &Graph, st: Grid, l: int, k: int) -> Grid
    decreases k,
{
    if k <= 1 {
        st
    } else {
        cross_step(g, cross_row(g, st, l, k - 1), l, k - 1)
    }
}

/// The crossing pass over the first `n` levels.
pub open spec fn cross_levels(g: &Graph, st: Grid, n: int) -> Grid
    decreases n,
{
    if n <= 0 {
        st
    } else {
        let t = cross_levels(g, st, n - 1);
        cross_row(g, t, n - 1, t.0[n - 1].len() as int)
    }
}

impl GraphLayout {
    /// Swapping `left` and its right neighbour `node` on level `l` leaves
    /// fewer crossings among their edges to the same or the next level.
    pub open spec fn swap_reduces(&self, g: &Graph, node: usize, left: usize, l: int) -> bool {
        grid_swap_reduces(g, self.grid(), node, left, l)
    }

    /// The state as plain values.
    pub open spec fn grid(&self) -> Grid {
        (Seq::new(self.layers@.len(), |l: int| self.layers@[l]@), self.level_of_node@, self.index_of_node@)
    }
}

impl GraphLayout {
    /// Of the successors of `v` on level `level_index` or the next one,
    /// collects the columns.
    fn near_successor_columns(&self, g: &Graph, cs: Ghost<Set<usize>>, v: usize, level_index: usize) -> (r: Vec<usize>)
        requires
            g.wf(),
            closed_under_lists(g, cs@),
            cs@.contains(v),
            self.placed(cs@),
            self.sized(g.n as nat),
        ensures
            r@.len() <= g.succ@[v as int]@.len(),
            r@ == near_columns(self.level_of_node@, self.index_of_node@, g.succ@[v as int]@, level_index as int),
    {
        let mut r: Vec<usize> = Vec::new();
        let mut j: usize = 0;
        while j < g.succ[v].len()
            invariant
                g.wf(),
                closed_under_lists(g, cs@),
                cs@.contains(v),
                self.placed(cs@),
                self.sized(g.n as nat),
                j <= g.succ@[v as int]@.len(),
                r@.len() <= j,
                r@ == near_columns(self.level_of_node@, self.index_of_node@, g.succ@[v as int]@.subrange(0, j as int), level_index as int),
            decreases g.succ@[v as int]@.len() - j,
        {
            let w = g.succ[v][j];
            assert(cs@.contains(w));
            assert(g.succ@[v as int]@.subrange(0, j as int + 1).drop_last() =~= g.succ@[v as int]@.subrange(0, j as int));
            if near(self.level_of_node[w], level_index) {
                r.push(self.index_of_node[w]);
            }
            j = j + 1;
        }
        assert(g.succ@[v as int]@.subrange(0, j as int) =~= g.succ@[v as int]@);
        r
    }

    /// Swaps `node` with its left neighbour `left` on level `level_index`
    /// when that leaves fewer crossings between their edges to the next level.
    fn reduce_crossings(&mut self, g: &Graph, cs: Ghost<Set<usize>>, node: usize, left: usize, level_index: usize)
        requires
            g.wf(),
            closed_under_lists(g, cs@),
            old(self).placed(cs@),
            old(self).sized(g.n as nat),
            cs@.contains(node),
            cs@.contains(left),
            old(self).level_of_node@[node as int] == level_index,
            old(self).level_of_node@[left as int] == level_index,
            old(self).index_of_node@[left as int] + 1 == old(self).index_of_node@[node as int],
        ensures
            old(self).swap_reduces(g, node, left, level_index as int) ==> {
                &&& final(self).index_of_node@ == old(self).index_of_node@.update(
                    left as int,
                    old(self).index_of_node@[node as int],
                ).update(node as int, old(self).index_of_node@[left as int])
                &&& final(self).layers@[level_index as int]@ == old(self).layers@[level_index as int]@.update(
                    old(self).index_of_node@[node as int] as int,
                    Some(left),
                ).update(old(self).index_of_node@[left as int] as int, Some(node))
                &&& forall|l: int| 0 <= l < old(self).layers@.len() && l != level_index ==> #[trigger] final(self).layers@[l] == old(self).layers@[l]
            },
            !old(self).swap_reduces(g, node, left, level_index as int) ==> *final(self) == *old(self),
            old(self).swap_reduces(g, node, left, level_index as int) ==> final(self).grid() == (
                old(self).grid().0.update(
                    level_index as int,
                    old(self).grid().0[level_index as int].update(old(self).index_of_node@[node as int] as int, Some(left)).update(
                        old(self).index_of_node@[left as int] as int,
                        Some(node),
                    ),
                ),
                old(self).level_of_node@,
                old(self).index_of_node@.update(left as int, old(self).index_of_node@[node as int]).update(
                    node as int,
                    old(self).index_of_node@[left as int],
                ),
            ),
            final(self).placed(cs@),
            final(self).sized(g.n as nat),
            final(self).level_of_node == old(self).level_of_node,
            final(self).layers@.len() == old(self).layers@.len(),
            forall|l: int| 0 <= l < final(self).layers@.len() ==> (#[trigger] final(self).layers@[l])@.len() == old(self).layers@[l]@.len(),
            forall|l: int, i: int|
                0 <= l < final(self).layers@.len() && 0 <= i < final(self).layers@[l]@.len() ==> ((#[trigger] final(self).layers@[l]@[i]) is Some
                    <==> old(self).layers@[l]@[i] is Some),
            (forall|v: usize| #[trigger] cs@.contains(v) ==> old(self).index_of_node@[v as int] >= 1) ==> (forall|v: usize|
                #[trigger] cs@.contains(v) ==> final(self).index_of_node@[v as int] >= 1),
            final(self).node_separation == old(self).node_separation,
            final(self).global_tasks_in_first_row == old(self).global_tasks_in_first_row,
    {
        let successors = self.near_successor_columns(g, cs, node, level_index);
        let left_successors = self.near_successor_columns(g, cs, left, level_index);
        let mut cross_count: u128 = 0;
        let mut cross_count_swap: u128 = 0;
        let mut a: usize = 0;
        let ghost sa = successors@;
        let ghost sb = left_successors@;
        while a < successors.len()
            invariant
                a <= successors@.len(),
                sa == successors@,
                sb == left_successors@,
                cross_count + cross_count_swap <= a * left_successors@.len(),
                cross_count == crossing_count(sa.subrange(0, a as int), sb, true),
                cross_count_swap == crossing_count(sa.subrange(0, a as int), sb, false),
            decreases successors@.len() - a,
        {
            let s = successors[a];
            let mut b: usize = 0;
            assert(sa.subrange(0, a as int + 1).drop_last() =~= sa.subrange(0, a as int));
            while b < left_successors.len()
                invariant
                    a < successors@.len(),
                    b <= left_successors@.len(),
                    sa == successors@,
                    sb == left_successors@,
                    s == sa[a as int],
                    cross_count + cross_count_swap <= a * left_successors@.len() + b,
                    cross_count == crossing_count(sa.subrange(0, a as int), sb, true) + count_side(sb.subrange(0, b as int), s, true),
                    cross_count_swap == crossing_count(sa.subrange(0, a as int), sb, false) + count_side(sb.subrange(0, b as int), s, false),
                decreases left_successors@.len() - b,
            {
                assert(sb.subrange(0, b as int + 1).drop_last() =~= sb.subrange(0, b as int));
                proof {
                    assert(a * left_successors@.len() + b < (successors@.len() as int) * (left_successors@.len() as int)) by (nonlinear_arith)
                        requires
                            a < successors@.len(),
                            b < left_successors@.len(),
                    ;
                    assert(usize::MAX <= 0xffff_ffff_ffff_ffff);
                    assert(successors@.len() == successors.len() && left_successors@.len() == left_successors.len());
                    assert((successors@.len() as int) * (left_successors@.len() as int) <= 0xffff_ffff_ffff_ffff * 0xffff_ffff_ffff_ffff) by (nonlinear_arith)
                        requires
                            successors@.len() <= 0xffff_ffff_ffff_ffff,
                            left_successors@.len() <= 0xffff_ffff_ffff_ffff,
                    ;
                }
                let ls = left_successors[b];
                if ls > s {
                    cross_count = cross_count + 1;
                } else if ls < s {
                    cross_count_swap = cross_count_swap + 1;
                }
                b = b + 1;
            }
            proof {
                assert(a * left_successors@.len() + left_successors@.len() == (a + 1) * left_successors@.len()) by (nonlinear_arith);
                assert(sb.subrange(0, b as int) =~= sb);
                assert(sa.subrange(0, a as int + 1).last() == s);
            }
            a = a + 1;
        }
        assert(sa.subrange(0, a as int) =~= sa);
        if cross_count_swap < cross_count {
            let node_index = self.index_of_node[node];
            let left_index = self.index_of_node[left];
            let ghost before = *self;
            self.layers[level_index][node_index] = Some(left);
            self.layers[level_index][left_index] = Some(node);
            self.index_of_node.set(left, node_index);
            self.index_of_node.set(node, left_index);
            proof {
                assert forall|u: usize| #[trigger] cs@.contains(u) implies {
                    &&& u < self.level_of_node@.len()
                    &&& self.level_of_node@[u as int] < self.layers@.len()
                    &&& self.index_of_node@[u as int] < self.layers@[self.level_of_node@[u as int] as int]@.len()
                    &&& self.layers@[self.level_of_node@[u as int] as int]@[self.index_of_node@[u as int] as int] == Some(u)
                } by {
                    if u != node && u != left {
                        let lu = before.level_of_node@[u as int];
                        let iu = before.index_of_node@[u as int];
                        assert(before.layers@[lu as int]@[iu as int] == Some(u));
                        assert(lu != level_index || (iu != node_index && iu != left_index));
                    }
                }
                assert forall|l: int, i: int|
                    0 <= l < self.layers@.len() && 0 <= i < self.layers@[l]@.len() && (#[trigger] self.layers@[l]@[i]) is Some
                    implies {
                    let w = self.layers@[l]@[i]->0;
                    &&& cs@.contains(w)
                    &&& self.level_of_node@[w as int] == l
                    &&& self.index_of_node@[w as int] == i
                } by {
                    if l != level_index || (i != node_index && i != left_index) {
                        assert(self.layers@[l]@[i] == before.layers@[l]@[i]);
                        let w = self.layers@[l]@[i]->0;
                        assert(w != node && w != left);
                    }
                }
                assert forall|l: int, i: int|
                    0 <= l < self.layers@.len() && 0 <= i < self.layers@[l]@.len() implies ((#[trigger] self.layers@[l]@[i]) is Some
                        <==> before.layers@[l]@[i] is Some) by {
                    if l != level_index || (i != node_index && i != left_index) {
                        assert(self.layers@[l]@[i] == before.layers@[l]@[i]);
                    }
                }
                assert(self.grid().0 =~= before.grid().0.update(
                    level_index as int,
                    before.grid().0[level_index as int].update(node_index as int, Some(left)).update(left_index as int, Some(node)),
                ));
            }
        }
    }

    /// One pass of the crossing reducer over every pair of adjacent
    /// occupied slots, level by level, left to right.
    fn reduce_crossings_pass(&mut self, g: &Graph, cs: Ghost<Set<usize>>)
        requires
            g.wf(),
            closed_under_lists(g, cs@),
            old(self).placed(cs@),
            old(self).sized(g.n as nat),
        ensures
            final(self).placed(cs@),
            final(self).sized(g.n as nat),
            final(self).level_of_node == old(self).level_of_node,
            final(self).layers@.len() == old(self).layers@.len(),
            forall|l: int| 0 <= l < final(self).layers@.len() ==> (#[trigger] final(self).layers@[l])@.len() == old(self).layers@[l]@.len(),
            forall|l: int, i: int|
                0 <= l < final(self).layers@.len() && 0 <= i < final(self).layers@[l]@.len() ==> ((#[trigger] final(self).layers@[l]@[i]) is Some
                    <==> old(self).layers@[l]@[i] is Some),
            (forall|v: usize| #[trigger] cs@.contains(v) ==> old(self).index_of_node@[v as int] >= 1) ==> (forall|v: usize|
                #[trigger] cs@.contains(v) ==> final(self).index_of_node@[v as int] >= 1),
            final(self).node_separation == old(self).node_separation,
            final(self).global_tasks_in_first_row == old(self).global_tasks_in_first_row,
            final(self).grid() == cross_levels(g, old(self).grid(), old(self).layers@.len() as int),
    {
        let ghost start = *self;
        let mut l: usize = 0;
        while l < self.layers.len()
            invariant
                self.grid() == cross_levels(g, start.grid(), l as int),
                l <= self.layers@.len(),
                g.wf(),
                closed_under_lists(g, cs@),
                self.placed(cs@),
                self.sized(g.n as nat),
                self.level_of_node == start.level_of_node,
                self.layers@.len() == start.layers@.len(),
                forall|ll: int| 0 <= ll < self.layers@.len() ==> (#[trigger] self.layers@[ll])@.len() == start.layers@[ll]@.len(),
                forall|ll: int, i: int|
                    0 <= ll < self.layers@.len() && 0 <= i < self.layers@[ll]@.len() ==> ((#[trigger] self.layers@[ll]@[i]) is Some
                        <==> start.layers@[ll]@[i] is Some),
                (forall|v: usize| #[trigger] cs@.contains(v) ==> start.index_of_node@[v as int] >= 1) ==> (forall|v: usize|
                    #[trigger] cs@.contains(v) ==> self.index_of_node@[v as int] >= 1),
                self.node_separation == start.node_separation,
                self.global_tasks_in_first_row == start.global_tasks_in_first_row,
            decreases self.layers@.len() - l,
        {
            let ghost row_start = self.grid();
            let mut i: usize = 1;
            while i < self.layers[l].len()
                invariant
                    self.grid() == cross_row(g, row_start, l as int, i as int),
                    row_start == cross_levels(g, start.grid(), l as int),
                    row_start.0[l as int].len() == self.layers@[l as int]@.len(),
                    i <= self.layers@[l as int]@.len() || (self.layers@[l as int]@.len() == 0 && i == 1),
                    g.wf(),
                    closed_under_lists(g, cs@),
                    self.placed(cs@),
                    self.sized(g.n as nat),
                    l < self.layers@.len(),
                    i >= 1,
                    self.level_of_node == start.level_of_node,
                    self.layers@.len() == start.layers@.len(),
                    forall|ll: int| 0 <= ll < self.layers@.len() ==> (#[trigger] self.layers@[ll])@.len() == start.layers@[ll]@.len(),
                    forall|ll: int, k: int|
                        0 <= ll < self.layers@.len() && 0 <= k < self.layers@[ll]@.len() ==> ((#[trigger] self.layers@[ll]@[k]) is Some
                            <==> start.layers@[ll]@[k] is Some),
                    (forall|v: usize| #[trigger] cs@.contains(v) ==> start.index_of_node@[v as int] >= 1) ==> (forall|v: usize|
                        #[trigger] cs@.contains(v) ==> self.index_of_node@[v as int] >= 1),
                    self.node_separation == start.node_separation,
                    self.global_tasks_in_first_row == start.global_tasks_in_first_row,
                decreases self.layers@[l as int]@.len() - i,
            {
                if let Some(left) = self.layers[l][i - 1] {
                    if let Some(node) = self.layers[l][i] {
                        assert(self.layers@[l as int]@[i - 1] is Some);
                        assert(self.layers@[l as int]@[i as int] is Some);
                        let ghost before = self.grid();
                        assert(before.0[l as int] == self.layers@[l as int]@);
                        self.reduce_crossings(g, cs, node, left, l);
                        assert(self.grid() == cross_step(g, before, l as int, i as int));
                    } else {
                        assert(self.grid().0[l as int] == self.layers@[l as int]@);
                    }
                } else {
                    assert(self.grid().0[l as int] == self.layers@[l as int]@);
                }
                i = i + 1;
            }
            proof {
                let len = row_start.0[l as int].len() as int;
                if len == 0 {
                    assert(cross_row(g, row_start, l as int, i as int) == row_start);
                    assert(cross_row(g, row_start, l as int, len) == row_start);
                } else {
                    assert(i == len);
                }
            }
            l = l + 1;
        }
    }
}

/// The sum of a sequence of columns.
pub open spec fn column_sum(cols: Seq<usize>) -> int
    decreases cols.len(),
{
    if cols.len() == 0 {
        0
    } else {
        column_sum(cols.drop_last()) + cols.last()
    }
}

proof fn lemma_column_sum_concat(a: Seq<usize>, b: Seq<usize>)
    ensures
        column_sum(a + b) == column_sum(a) + column_sum(b),
    decreases b.len(),
{
    if b.len() > 0 {
        lemma_column_sum_concat(a, b.drop_last());
        assert((a + b).drop_last() =~= a + b.drop_last());
    } else {
        assert(a + b =~= a);
    }
}

impl GraphLayout {
    /// The columns of the neighbours of `v` (successors, then predecessors)
    /// on level `l` or an adjacent one.
    pub open spec fn neighbor_columns(&self, g: &Graph, v: usize, l: int) -> Seq<usize> {
        near_columns(self.level_of_node@, self.index_of_node@, g.succ@[v as int]@, l) + near_columns(
            self.level_of_node@,
            self.index_of_node@,
            g.pred@[v as int]@,
            l,
        )
    }

    /// The column the gap slider moves `v` (at column `i` of level `l`) to,
    /// if any: one left when the mean `sum / cnt` of its neighbours' columns
    /// is below `i - 1/2` and the left slot is empty, else one right when the
    /// mean is above `i + 1/2` and the right slot is empty or missing; never
    /// when both sides are occupied or `v` has no neighbour near its level.
    pub open spec fn slide_target(&self, g: &Graph, v: usize, l: int) -> Option<int> {
        grid_slide_target(g, self.grid(), v, l)
    }
}

/// [`GraphLayout::slide_target`] on a grid.
pub open spec fn grid_slide_target(g: &Graph, st: Grid, v: usize, l: int) -> Option<int> {
    let i = st.2[v as int] as int;
    let row = st.0[l];
    let left_some = i > 0 && row[i - 1] is Some;
    let right_some = i + 1 < row.len() && row[i + 1] is Some;
    let cols = near_columns(st.1, st.2, g.succ@[v as int]@, l) + near_columns(st.1, st.2, g.pred@[v as int]@, l);
    let sum = column_sum(cols);
    let cnt = cols.len() as int;
    if (left_some && right_some) || cnt == 0 {
        None
    } else if 2 * sum + cnt < 2 * i * cnt && i > 0 && !left_some {
        Some(i - 1)
    } else if 2 * sum > (2 * i + 1) * cnt && !right_some {
        Some(i + 1)
    } else {
        None
    }
}

/// The grid after the gap slider's step on `v` at level `l`.
pub open spec fn slide_effect(g: &Graph, st: Grid, v: usize, l: int) -> Grid {
    match grid_slide_target(g, st, v, l) {
        None => st,
        Some(j) => {
            let row = st.0[l].update(st.2[v as int] as int, None);
            (
                st.0.update(l, if j < row.len() { row.update(j, Some(v)) } else { row.push(Some(v)) }),
                st.1,
                st.2.update(v as int, j as usize),
            )
        },
    }
}

/// The gap slider's steps on the first `k` vertices of `snap`, and whether
/// any of them moved.
pub open spec fn slide_sweep(g: &Graph, st: Grid, l: int, snap: Seq<usize>, k: int) -> (Grid, bool)
    decreases k,
{
    if k <= 0 {
        (st, false)
    } else {
        let (t, m) = slide_sweep(g, st, l, snap, k - 1);
        let v = snap[k - 1];
        (slide_effect(g, t, v, l), m || grid_slide_target(g, t, v, l) is Some)
    }
}

/// Up to `reps` sweeps over `snap`, stopping after one that moves nothing;
/// and whether any sweep moved.
pub open spec fn slide_rounds(g: &Graph, st: Grid, l: int, snap: Seq<usize>, reps: nat) -> (Grid, bool)
    decreases reps,
{
    if reps == 0 {
        (st, false)
    } else {
        let (t, m) = slide_sweep(g, st, l, snap, snap.len() as int);
        if !m {
            (t, false)
        } else {
            (slide_rounds(g, t, l, snap, (reps - 1) as nat).0, true)
        }
    }
}

/// The vertices of a row, left to right.
pub open spec fn row_vertex_list(row: Seq<Option<usize>>) -> Seq<usize>
    decreases row.len(),
{
    if row.len() == 0 {
        Seq::empty()
    } else if row.last() is Some {
        row_vertex_list(row.drop_last()).push(row.last()->0)
    } else {
        row_vertex_list(row.drop_last())
    }
}

/// The gap slider over the first `n` levels, and whether any vertex moved.
pub open spec fn slide_levels(g: &Graph, st: Grid, n: int) -> (Grid, bool)
    decreases n,
{
    if n <= 0 {
        (st, false)
    } else {
        let (t, m) = slide_levels(g, st, n - 1);
        let row = t.0[n - 1];
        let (u, m2) = slide_rounds(g, t, n - 1, row_vertex_list(row), row.len());
        (u, m || m2)
    }
}

/// Up to `rounds` rounds of two crossing passes and up to two slider passes,
/// stopping after a round whose first slider pass moves nothing.
pub open spec fn refine_rounds(g: &Graph, st: Grid, rounds: nat) -> Grid
    decreases rounds,
{
    if rounds == 0 {
        st
    } else {
        let c1 = cross_levels(g, st, st.0.len() as int);
        let c = cross_levels(g, c1, c1.0.len() as int);
        let (s1, m1) = slide_levels(g, c, c.0.len() as int);
        if !m1 {
            s1
        } else {
            refine_rounds(g, slide_levels(g, s1, s1.0.len() as int).0, (rounds - 1) as nat)
        }
    }
}

impl GraphLayout {
    /// The requirements of the gap slider on the state.
    pub open spec fn slidable(&self, g: &Graph, cs: Set<usize>, lw: int, wb: nat) -> bool {
        &&& g.wf()
        &&& closed_under_lists(g, cs)
        &&& self.placed(cs)
        &&& self.sized(g.n as nat)
        &&& rows_within(self.layers@, wb)
        &&& 1 <= wb <= 0xffff_ffff
        &&& self.framed(cs, lw, wb)
    }

    /// No vertex stands in column 0, and level `lw` is `w` slots long with
    /// every slot but the first occupied.
    pub open spec fn framed(&self, cs: Set<usize>, lw: int, w: nat) -> bool {
        &&& forall|v: usize| #[trigger] cs.contains(v) ==> self.index_of_node@[v as int] >= 1
        &&& 0 <= lw < self.layers@.len()
        &&& full_row(self.layers@[lw]@, w)
    }

    /// Adds the columns of the neighbours of `v` (through `list`, its
    /// successor or predecessor list) that lie on level `level_index` or an
    /// adjacent one to `sum`, and their number to `cnt`.
    fn add_neighbor_columns(
        &self,
        g: &Graph,
        cs: Ghost<Set<usize>>,
        lw: Ghost<int>,
        wb: Ghost<nat>,
        list: &Vec<usize>,
        level_index: usize,
        sum: &mut u128,
        cnt: &mut u128,
    )
        requires
            self.slidable(g, cs@, lw@, wb@),
            forall|j: int| 0 <= j < list@.len() ==> cs@.contains(#[trigger] list@[j]),
            *old(cnt) <= 0xffff_ffff_ffff_ffff,
            *old(sum) <= *old(cnt) * (wb@ - 1),
            *old(sum) >= *old(cnt),
        ensures
            *final(cnt) <= *old(cnt) + list@.len(),
            *final(sum) <= *final(cnt) * (wb@ - 1),
            *final(sum) >= *final(cnt),
            *final(sum) == *old(sum) + column_sum(near_columns(self.level_of_node@, self.index_of_node@, list@, level_index as int)),
            *final(cnt) == *old(cnt) + near_columns(self.level_of_node@, self.index_of_node@, list@, level_index as int).len(),
    {
        let mut j: usize = 0;
        while j < list.len()
            invariant
                self.slidable(g, cs@, lw@, wb@),
                forall|q: int| 0 <= q < list@.len() ==> cs@.contains(#[trigger] list@[q]),
                j <= list@.len(),
                *cnt <= *old(cnt) + j,
                *old(cnt) <= 0xffff_ffff_ffff_ffff,
                *sum <= *cnt * (wb@ - 1),
                *sum >= *cnt,
                *sum == *old(sum) + column_sum(near_columns(self.level_of_node@, self.index_of_node@, list@.subrange(0, j as int), level_index as int)),
                *cnt == *old(cnt) + near_columns(self.level_of_node@, self.index_of_node@, list@.subrange(0, j as int), level_index as int).len(),
            decreases list@.len() - j,
        {
            let w = list[j];
            assert(cs@.contains(w));
            assert(list@.subrange(0, j as int + 1).drop_last() =~= list@.subrange(0, j as int));
            if near(self.level_of_node[w], level_index) {
                let idx = self.index_of_node[w];
                proof {
                    assert(idx >= 1);
                    assert(idx < self.layers@[self.level_of_node@[w as int] as int]@.len());
                    assert(usize::MAX <= 0xffff_ffff_ffff_ffff);
                    assert(list@.len() == list.len());
                    let c = *cnt as int;
                    let m = wb@ - 1;
                    assert(*sum + idx <= (c + 1) * m) by (nonlinear_arith)
                        requires
                            *sum <= c * m,
                            idx <= m,
                    ;
                    assert((c + 1) * m <= 0x3_ffff_ffff_ffff_ffff * 0xffff_ffff) by (nonlinear_arith)
                        requires
                            0 <= c + 1 <= 0x3_ffff_ffff_ffff_ffff,
                            0 <= m <= 0xffff_ffff,
                    ;
                }
                proof {
                    let prev = near_columns(self.level_of_node@, self.index_of_node@, list@.subrange(0, j as int), level_index as int);
                    assert(prev.push(idx).drop_last() =~= prev);
                }
                *sum = *sum + idx as u128;
                *cnt = *cnt + 1;
            }
            j = j + 1;
        }
        assert(list@.subrange(0, j as int) =~= list@);
    }

    /// Moves `v` one slot left or right into an empty slot when that brings
    /// its column closer to the mean column of its neighbours on the same or
    /// an adjacent level. Returns `false` when it moved.
    fn swap_with_none_neighbors(&mut self, g: &Graph, cs: Ghost<Set<usize>>, lw: Ghost<int>, wb: Ghost<nat>, v: usize, level_index: usize) -> (r: bool)
        requires
            old(self).slidable(g, cs@, lw@, wb@),
            cs@.contains(v),
            old(self).level_of_node@[v as int] == level_index,
        ensures
            r == (old(self).slide_target(g, v, level_index as int) is None),
            final(self).grid() == slide_effect(g, old(self).grid(), v, level_index as int),
            old(self).slide_target(g, v, level_index as int) is None ==> *final(self) == *old(self),
            old(self).slide_target(g, v, level_index as int) matches Some(j) ==> {
                let i = old(self).index_of_node@[v as int] as int;
                let row = old(self).layers@[level_index as int]@.update(i, None);
                &&& final(self).index_of_node@ == old(self).index_of_node@.update(v as int, j as usize)
                &&& final(self).layers@[level_index as int]@ == if j < row.len() {
                    row.update(j, Some(v))
                } else {
                    row.push(Some(v))
                }
                &&& forall|l: int| 0 <= l < old(self).layers@.len() && l != level_index ==> #[trigger] final(self).layers@[l] == old(self).layers@[l]
            },
            final(self).slidable(g, cs@, lw@, wb@),
            final(self).level_of_node == old(self).level_of_node,
            final(self).layers@.len() == old(self).layers@.len(),
            final(self).node_separation == old(self).node_separation,
            final(self).global_tasks_in_first_row == old(self).global_tasks_in_first_row,
    {
        let node_index = self.index_of_node[v];
        let len = self.layers[level_index].len();
        let left_some = node_index > 0 && self.layers[level_index][node_index - 1].is_some();
        let right_some = node_index + 1 < len && self.layers[level_index][node_index + 1].is_some();
        if left_some && right_some {
            return true;
        }
        let mut sum: u128 = 0;
        let mut cnt: u128 = 0;
        proof {
            assert(forall|j: int| 0 <= j < g.succ@[v as int]@.len() ==> cs@.contains(#[trigger] g.succ@[v as int]@[j]));
            assert(forall|j: int| 0 <= j < g.pred@[v as int]@.len() ==> cs@.contains(#[trigger] g.pred@[v as int]@[j]));
            assert(usize::MAX <= 0xffff_ffff_ffff_ffff);
            assert(g.succ@[v as int]@.len() == g.succ@[v as int].len());
            assert(g.pred@[v as int]@.len() == g.pred@[v as int].len());
        }
        self.add_neighbor_columns(g, cs, lw, wb, &g.succ[v], level_index, &mut sum, &mut cnt);
        self.add_neighbor_columns(g, cs, lw, wb, &g.pred[v], level_index, &mut sum, &mut cnt);
        proof {
            let a = near_columns(self.level_of_node@, self.index_of_node@, g.succ@[v as int]@, level_index as int);
            let b = near_columns(self.level_of_node@, self.index_of_node@, g.pred@[v as int]@, level_index as int);
            lemma_column_sum_concat(a, b);
            assert(sum == column_sum(self.neighbor_columns(g, v, level_index as int)));
            assert(cnt == self.neighbor_columns(g, v, level_index as int).len());
        }
        if cnt == 0 {
            return true;
        }
        let i = node_index as u128;
        proof {
            assert(node_index < wb@);
            assert(2 * sum + cnt <= 2 * 0x3_ffff_ffff_ffff_ffff * 0xffff_ffff + 0x3_ffff_ffff_ffff_ffff) by (nonlinear_arith)
                requires
                    sum <= cnt * (wb@ - 1),
                    cnt <= 0x3_ffff_ffff_ffff_ffff,
                    1 <= wb@ <= 0xffff_ffff,
            ;
            assert((2 * i + 1) * cnt <= (2 * 0xffff_ffff + 1) * 0x3_ffff_ffff_ffff_ffff) by (nonlinear_arith)
                requires
                    i <= 0xffff_ffff,
                    cnt <= 0x3_ffff_ffff_ffff_ffff,
            ;
            assert(2 * i * cnt <= (2 * 0xffff_ffff) * 0x3_ffff_ffff_ffff_ffff) by (nonlinear_arith)
                requires
                    i <= 0xffff_ffff,
                    cnt <= 0x3_ffff_ffff_ffff_ffff,
            ;
        }
        let ghost before = *self;
        if 2 * sum + cnt < 2 * i * cnt && node_index > 0 && !left_some {
            proof {
                assert(node_index >= 2) by (nonlinear_arith)
                    requires
                        2 * sum + cnt < 2 * i * cnt,
                        sum >= cnt,
                        cnt >= 1,
                        i == node_index,
                ;
                if level_index as int == lw@ {
                    assert(self.layers@[lw@]@[node_index - 1] is Some);
                }
            }
            self.layers[level_index][node_index] = None;
            self.layers[level_index][node_index - 1] = Some(v);
            self.index_of_node.set(v, node_index - 1);
            proof {
                self.lemma_slot_move(before, cs@, v, level_index as int, node_index, (node_index - 1) as usize);
                self.lemma_framed_kept(before, cs@, lw@, wb@, v, level_index as int);
                assert(self.grid().0 =~= before.grid().0.update(
                    level_index as int,
                    before.layers@[level_index as int]@.update(node_index as int, None).update(node_index - 1, Some(v)),
                ));
            }
            false
        } else if 2 * sum > (2 * i + 1) * cnt && !right_some {
            proof {
                assert(node_index + 2 <= wb@) by (nonlinear_arith)
                    requires
                        2 * sum > (2 * i + 1) * cnt,
                        sum <= cnt * (wb@ - 1),
                        cnt >= 1,
                        i == node_index,
                ;
                if level_index as int == lw@ {
                    assert(self.layers@[lw@]@[node_index + 1] is Some);
                }
            }
            self.layers[level_index][node_index] = None;
            if node_index + 1 >= len {
                self.layers[level_index].push(Some(v));
            } else {
                self.layers[level_index][node_index + 1] = Some(v);
            }
            self.index_of_node.set(v, node_index + 1);
            proof {
                self.lemma_slot_move(before, cs@, v, level_index as int, node_index, (node_index + 1) as usize);
                self.lemma_framed_kept(before, cs@, lw@, wb@, v, level_index as int);
                let row = before.layers@[level_index as int]@.update(node_index as int, None);
                assert(self.grid().0 =~= before.grid().0.update(
                    level_index as int,
                    if node_index + 1 < row.len() { row.update(node_index + 1, Some(v)) } else { row.push(Some(v)) },
                ));
            }
            false
        } else {
            true
        }
    }

    /// Moving `v` off column 0 within a level other than `lw` keeps the frame.
    proof fn lemma_framed_kept(&self, before: Self, cs: Set<usize>, lw: int, w: nat, v: usize, l: int)
        requires
            before.framed(cs, lw, w),
            before.placed(cs),
            before.index_of_node@.len() == before.level_of_node@.len(),
            l != lw,
            self.layers@.len() == before.layers@.len(),
            forall|ll: int| 0 <= ll < self.layers@.len() && ll != l ==> #[trigger] self.layers@[ll] == before.layers@[ll],
            self.index_of_node@.len() == before.index_of_node@.len(),
            v < self.index_of_node@.len(),
            self.index_of_node@[v as int] >= 1,
            forall|u: int| 0 <= u < self.index_of_node@.len() && u != v ==> #[trigger] self.index_of_node@[u] == before.index_of_node@[u],
        ensures
            self.framed(cs, lw, w),
    {
        assert(self.layers@[lw] == before.layers@[lw]);
        assert forall|u: usize| #[trigger] cs.contains(u) implies self.index_of_node@[u as int] >= 1 by {
            if u != v {
                assert(self.index_of_node@[u as int] == before.index_of_node@[u as int]);
            }
        }
    }

    /// Moving `v` within its level from slot `i` to the empty slot `j`
    /// keeps the grid and the maps in agreement.
    proof fn lemma_slot_move(&self, before: Self, cs: Set<usize>, v: usize, l: int, i: usize, j: usize)
        requires
            before.placed(cs),
            before.index_of_node@.len() == before.level_of_node@.len(),
            cs.contains(v),
            before.level_of_node@[v as int] == l,
            before.index_of_node@[v as int] == i,
            i != j,
            0 <= j,
            j < before.layers@[l]@.len() ==> before.layers@[l]@[j as int] is None,
            j >= before.layers@[l]@.len() ==> j == before.layers@[l]@.len() && self.layers@[l]@.len() == j + 1,
            j < before.layers@[l]@.len() ==> self.layers@[l]@.len() == before.layers@[l]@.len(),
            self.layers@.len() == before.layers@.len(),
            forall|ll: int| 0 <= ll < self.layers@.len() && ll != l ==> #[trigger] self.layers@[ll] == before.layers@[ll],
            forall|k: int| 0 <= k < before.layers@[l]@.len() && k != i && k != j ==> #[trigger] self.layers@[l]@[k] == before.layers@[l]@[k],
            self.layers@[l]@[i as int] is None,
            self.layers@[l]@[j as int] == Some(v),
            self.level_of_node == before.level_of_node,
            self.index_of_node@ == before.index_of_node@.update(v as int, j),
        ensures
            self.placed(cs),
    {
        assert forall|u: usize| #[trigger] cs.contains(u) implies {
            &&& u < self.level_of_node@.len()
            &&& self.level_of_node@[u as int] < self.layers@.len()
            &&& self.index_of_node@[u as int] < self.layers@[self.level_of_node@[u as int] as int]@.len()
            &&& self.layers@[self.level_of_node@[u as int] as int]@[self.index_of_node@[u as int] as int] == Some(u)
        } by {
            if u != v {
                let lu = before.level_of_node@[u as int];
                let iu = before.index_of_node@[u as int];
                assert(before.layers@[lu as int]@[iu as int] == Some(u));
                if lu == l {
                    assert(iu != i);
                    assert(iu != j);
                }
            }
        }
        assert forall|ll: int, k: int|
            0 <= ll < self.layers@.len() && 0 <= k < self.layers@[ll]@.len() && (#[trigger] self.layers@[ll]@[k]) is Some
            implies {
            let w = self.layers@[ll]@[k]->0;
            &&& cs.contains(w)
            &&& self.level_of_node@[w as int] == ll
            &&& self.index_of_node@[w as int] == k
        } by {
            if ll != l || (k != i && k != j) {
                assert(self.layers@[ll]@[k] == before.layers@[ll]@[k]);
                let w = self.layers@[ll]@[k]->0;
                assert(w != v);
            }
        }
    }
}

impl GraphLayout {
    /// The vertices on level `l`, from left to right.
    fn layer_vertices(&self, cs: Ghost<Set<usize>>, l: usize) -> (r: Vec<usize>)
        requires
            self.placed(cs@),
            l < self.layers@.len(),
        ensures
            forall|j: int| 0 <= j < r@.len() ==> cs@.contains(#[trigger] r@[j]) && self.level_of_node@[r@[j] as int] == l,
            r@ == row_vertex_list(self.layers@[l as int]@),
    {
        let mut r: Vec<usize> = Vec::new();
        let mut i: usize = 0;
        while i < self.layers[l].len()
            invariant
                self.placed(cs@),
                l < self.layers@.len(),
                forall|j: int| 0 <= j < r@.len() ==> cs@.contains(#[trigger] r@[j]) && self.level_of_node@[r@[j] as int] == l,
                i <= self.layers@[l as int]@.len(),
                r@ == row_vertex_list(self.layers@[l as int]@.subrange(0, i as int)),
            decreases self.layers@[l as int]@.len() - i,
        {
            assert(self.layers@[l as int]@.subrange(0, i as int + 1).drop_last() =~= self.layers@[l as int]@.subrange(0, i as int));
            if let Some(v) = self.layers[l][i] {
                assert(self.layers@[l as int]@[i as int] is Some);
                r.push(v);
            }
            i = i + 1;
        }
        assert(self.layers@[l as int]@.subrange(0, i as int) =~= self.layers@[l as int]@);
        r
    }

    /// Runs the gap slider over level `l` until a pass over its vertices
    /// moves none, at most as many passes as the level has slots. Returns
    /// whether any vertex moved.
    fn slide_level(&mut self, g: &Graph, cs: Ghost<Set<usize>>, lw: Ghost<int>, wb: Ghost<nat>, l: usize) -> (moved_any: bool)
        requires
            old(self).slidable(g, cs@, lw@, wb@),
            l < old(self).layers@.len(),
        ensures
            final(self).slidable(g, cs@, lw@, wb@),
            final(self).level_of_node == old(self).level_of_node,
            final(self).layers@.len() == old(self).layers@.len(),
            final(self).node_separation == old(self).node_separation,
            final(self).global_tasks_in_first_row == old(self).global_tasks_in_first_row,
            (final(self).grid(), moved_any) == slide_rounds(
                g,
                old(self).grid(),
                l as int,
                row_vertex_list(old(self).layers@[l as int]@),
                old(self).layers@[l as int]@.len(),
            ),
    {
        let ghost start = *self;
        let reps = self.layers[l].len();
        let snapshot = self.layer_vertices(cs, l);
        let ghost snap = snapshot@;
        let ghost overall = slide_rounds(g, start.grid(), l as int, snap, reps as nat);
        assert(start.grid().0[l as int] == start.layers@[l as int]@);
        let mut done = false;
        let mut moved_any = false;
        let mut rep: usize = 0;
        while rep < reps && !done
            invariant
                rep <= reps,
                snap == snapshot@,
                done ==> overall == (self.grid(), moved_any),
                !done ==> overall == (
                    slide_rounds(g, self.grid(), l as int, snap, (reps - rep) as nat).0,
                    moved_any || slide_rounds(g, self.grid(), l as int, snap, (reps - rep) as nat).1,
                ),
                self.slidable(g, cs@, lw@, wb@),
                self.level_of_node == start.level_of_node,
                self.layers@.len() == start.layers@.len(),
                self.node_separation == start.node_separation,
                self.global_tasks_in_first_row == start.global_tasks_in_first_row,
                forall|j: int| 0 <= j < snapshot@.len() ==> cs@.contains(#[trigger] snapshot@[j]) && self.level_of_node@[snapshot@[j] as int] == l,
            decreases (reps - rep) * 2 + if done { 0int } else { 1int },
        {
            let ghost sweep_start = self.grid();
            let mut moved = false;
            let mut j: usize = 0;
            while j < snapshot.len()
                invariant
                    j <= snapshot@.len(),
                    snap == snapshot@,
                    (self.grid(), moved) == slide_sweep(g, sweep_start, l as int, snap, j as int),
                    self.slidable(g, cs@, lw@, wb@),
                    self.level_of_node == start.level_of_node,
                    self.layers@.len() == start.layers@.len(),
                    self.node_separation == start.node_separation,
                    self.global_tasks_in_first_row == start.global_tasks_in_first_row,
                    forall|q: int| 0 <= q < snapshot@.len() ==> cs@.contains(#[trigger] snapshot@[q]) && self.level_of_node@[snapshot@[q] as int] == l,
                decreases snapshot@.len() - j,
            {
                let v = snapshot[j];
                assert(cs@.contains(snapshot@[j as int]));
                let ghost before = self.grid();
                if !self.swap_with_none_neighbors(g, cs, lw, wb, v, l) {
                    moved = true;
                }
                j = j + 1;
            }
            if !moved {
                done = true;
            } else {
                moved_any = true;
                rep = rep + 1;
            }
        }
        moved_any
    }

    /// One run of the gap slider over every level. Returns whether any
    /// vertex moved.
    fn slide_pass(&mut self, g: &Graph, cs: Ghost<Set<usize>>, lw: Ghost<int>, wb: Ghost<nat>) -> (moved: bool)
        requires
            old(self).slidable(g, cs@, lw@, wb@),
        ensures
            final(self).slidable(g, cs@, lw@, wb@),
            final(self).level_of_node == old(self).level_of_node,
            final(self).layers@.len() == old(self).layers@.len(),
            final(self).node_separation == old(self).node_separation,
            final(self).global_tasks_in_first_row == old(self).global_tasks_in_first_row,
            (final(self).grid(), moved) == slide_levels(g, old(self).grid(), old(self).layers@.len() as int),
    {
        let ghost start = *self;
        let mut moved = false;
        let mut l: usize = 0;
        while l < self.layers.len()
            invariant
                l <= self.layers@.len(),
                (self.grid(), moved) == slide_levels(g, start.grid(), l as int),
                self.slidable(g, cs@, lw@, wb@),
                self.level_of_node == start.level_of_node,
                self.layers@.len() == start.layers@.len(),
                self.node_separation == start.node_separation,
                self.global_tasks_in_first_row == start.global_tasks_in_first_row,
            decreases self.layers@.len() - l,
        {
            assert(self.grid().0[l as int] == self.layers@[l as int]@);
            if self.slide_level(g, cs, lw, wb, l) {
                moved = true;
            }
            l = l + 1;
        }
        moved
    }

    /// Up to ten rounds of two crossing-reduction passes followed by up to
    /// two gap-slider passes, stopping after a round in which the slider
    /// moved nothing.
    fn refine(&mut self, g: &Graph, cs: Ghost<Set<usize>>, lw: Ghost<int>, wb: Ghost<nat>)
        requires
            old(self).slidable(g, cs@, lw@, wb@),
        ensures
            final(self).slidable(g, cs@, lw@, wb@),
            final(self).level_of_node == old(self).level_of_node,
            final(self).layers@.len() == old(self).layers@.len(),
            final(self).node_separation == old(self).node_separation,
            final(self).global_tasks_in_first_row == old(self).global_tasks_in_first_row,
            final(self).grid() == refine_rounds(g, old(self).grid(), 10),
    {
        let ghost start = *self;
        let ghost overall = refine_rounds(g, start.grid(), 10);
        let mut done = false;
        let mut round: usize = 0;
        while round < 10 && !done
            invariant
                round <= 10,
                done ==> overall == self.grid(),
                !done ==> overall == refine_rounds(g, self.grid(), (10 - round) as nat),
                self.slidable(g, cs@, lw@, wb@),
                self.level_of_node == start.level_of_node,
                self.layers@.len() == start.layers@.len(),
                self.node_separation == start.node_separation,
                self.global_tasks_in_first_row == start.global_tasks_in_first_row,
            decreases (10 - round) * 2 + if done { 0int } else { 1int },
        {
            let ghost before = *self;
            self.reduce_crossings_pass(g, cs);
            self.reduce_crossings_pass(g, cs);
            proof {
                assert(self.layers@[lw@]@.len() == before.layers@[lw@]@.len());
                assert forall|i: int| 1 <= i < wb@ implies (#[trigger] self.layers@[lw@]@[i]) is Some by {
                    assert(before.layers@[lw@]@[i] is Some);
                }
                assert forall|ll: int| 0 <= ll < self.layers@.len() implies (#[trigger] self.layers@[ll])@.len() <= wb@ by {
                    assert(before.layers@[ll]@.len() <= wb@);
                }
            }
            let moved = self.slide_pass(g, cs, lw, wb);
            if moved {
                self.slide_pass(g, cs, lw, wb);
                round = round + 1;
            } else {
                done = true;
            }
        }
    }

    /// Takes `v` out of its level, shifting the slots to its right one
    /// column left.
    fn remove_from_level(&mut self, cs: Ghost<Set<usize>>, v: usize)
        requires
            old(self).placed(cs@),
            old(self).index_of_node@.len() == old(self).level_of_node@.len(),
            cs@.contains(v),
        ensures
            final(self).placed(cs@.remove(v)),
            final(self).level_of_node == old(self).level_of_node,
            final(self).index_of_node@.len() == old(self).index_of_node@.len(),
            final(self).layers@.len() == old(self).layers@.len(),
            forall|l: int| 0 <= l < final(self).layers@.len() ==> (#[trigger] final(self).layers@[l])@.len() <= old(self).layers@[l]@.len(),
            final(self).node_separation == old(self).node_separation,
            final(self).global_tasks_in_first_row == old(self).global_tasks_in_first_row,
    {
        let ghost before = *self;
        let ghost rest = cs@.remove(v);
        let l = self.level_of_node[v];
        let i = self.index_of_node[v];
        self.layers[l].remove(i);
        let ghost removed = *self;
        let mut j: usize = i;
        while j < self.layers[l].len()
            invariant
                before.placed(cs@),
                before.index_of_node@.len() == before.level_of_node@.len(),
                cs@.contains(v),
                rest == cs@.remove(v),
                l < before.layers@.len(),
                l == before.level_of_node@[v as int],
                i == before.index_of_node@[v as int],
                i <= j <= self.layers@[l as int]@.len(),
                self.layers == removed.layers,
                removed.layers@.len() == before.layers@.len(),
                removed.layers@[l as int]@ == before.layers@[l as int]@.remove(i as int),
                forall|ll: int| 0 <= ll < before.layers@.len() && ll != l ==> #[trigger] removed.layers@[ll] == before.layers@[ll],
                self.level_of_node == before.level_of_node,
                self.index_of_node@.len() == before.index_of_node@.len(),
                self.node_separation == before.node_separation,
                self.global_tasks_in_first_row == before.global_tasks_in_first_row,
                forall|u: usize|
                    #[trigger] rest.contains(u) && !(before.level_of_node@[u as int] == l && before.index_of_node@[u as int] > i
                        && before.index_of_node@[u as int] <= j) ==> self.index_of_node@[u as int] == before.index_of_node@[u as int],
                forall|u: usize|
                    #[trigger] rest.contains(u) && before.level_of_node@[u as int] == l && before.index_of_node@[u as int] > i
                        && before.index_of_node@[u as int] <= j ==> self.index_of_node@[u as int] == before.index_of_node@[u as int] - 1,
            decreases self.layers@[l as int]@.len() - j,
        {
            if let Some(w) = self.layers[l][j] {
                assert(self.layers@[l as int]@[j as int] == before.layers@[l as int]@[j + 1]);
                assert(before.layers@[l as int]@[j + 1] is Some);
                assert(rest.contains(w));
                self.index_of_node.set(w, j);
            }
            j = j + 1;
        }
        proof {
            assert forall|u: usize| #[trigger] rest.contains(u) implies {
                &&& u < self.level_of_node@.len()
                &&& self.level_of_node@[u as int] < self.layers@.len()
                &&& self.index_of_node@[u as int] < self.layers@[self.level_of_node@[u as int] as int]@.len()
                &&& self.layers@[self.level_of_node@[u as int] as int]@[self.index_of_node@[u as int] as int] == Some(u)
            } by {
                let lu = before.level_of_node@[u as int];
                let iu = before.index_of_node@[u as int];
                assert(before.layers@[lu as int]@[iu as int] == Some(u));
                if lu == l {
                    assert(iu != i);
                }
            }
            assert forall|ll: int, k: int|
                0 <= ll < self.layers@.len() && 0 <= k < self.layers@[ll]@.len() && (#[trigger] self.layers@[ll]@[k]) is Some
                implies {
                let w = self.layers@[ll]@[k]->0;
                &&& rest.contains(w)
                &&& self.level_of_node@[w as int] == ll
                &&& self.index_of_node@[w as int] == k
            } by {
                if ll == l {
                    if k >= i {
                        assert(self.layers@[ll]@[k] == before.layers@[ll]@[k + 1]);
                    } else {
                        assert(self.layers@[ll]@[k] == before.layers@[ll]@[k]);
                    }
                } else {
                    assert(self.layers@[ll]@[k] == before.layers@[ll]@[k]);
                }
                let w = self.layers@[ll]@[k]->0;
                assert(w != v);
            }
        }
    }
}

/// A strictly increasing sequence of values below `n` has at most `n` items.
proof fn lemma_increasing_len(s: Seq<usize>, n: nat)
    requires
        forall|a: int, b: int| 0 <= a < b < s.len() ==> #[trigger] s[a] < #[trigger] s[b],
        forall|a: int| 0 <= a < s.len() ==> #[trigger] s[a] < n,
    ensures
        s.len() <= n,
{
    assert forall|a: int| 0 <= a < s.len() implies #[trigger] s[a] >= a by {
        lemma_increasing_ge_index(s, a);
    }
    if s.len() > 0 {
        assert(s[s.len() - 1] >= s.len() - 1);
    }
}

proof fn lemma_increasing_ge_index(s: Seq<usize>, a: int)
    requires
        forall|x: int, y: int| 0 <= x < y < s.len() ==> #[trigger] s[x] < #[trigger] s[y],
        0 <= a < s.len(),
    ensures
        s[a] >= a,
    decreases a,
{
    if a > 0 {
        lemma_increasing_ge_index(s, a - 1);
        assert(s[a - 1] < s[a]);
    }
}

impl GraphLayout {
    /// Moves every vertex of component `c` without predecessors that is not
    /// on level 0 to the end of level 0.
    fn lift_sources(&mut self, g: &Graph, comps: &Components, c: usize, wb: Ghost<nat>)
        requires
            g.wf(),
            comps.partitions(g),
            c < comps.members@.len(),
            old(self).placed(comp_set(comps, c)),
            old(self).sized(g.n as nat),
            levels_respect_edges(g.edges@, old(self).level_of_node@, comp_set(comps, c)),
            rows_within(old(self).layers@, wb@),
        ensures
            final(self).placed(comp_set(comps, c)),
            final(self).sized(g.n as nat),
            levels_respect_edges(g.edges@, final(self).level_of_node@, comp_set(comps, c)),
            rows_within(final(self).layers@, (wb@ + comps.members@[c as int]@.len()) as nat),
            final(self).layers@.len() == old(self).layers@.len(),
            forall|v: usize|
                #[trigger] comp_set(comps, c).contains(v) && g.pred@[v as int]@.len() == 0 ==> final(self).level_of_node@[v as int] == 0,
            forall|v: usize|
                #[trigger] comp_set(comps, c).contains(v) && g.pred@[v as int]@.len() != 0 ==> final(self).level_of_node@[v as int]
                    == old(self).level_of_node@[v as int],
            (forall|v: usize|
                #[trigger] comp_set(comps, c).contains(v) && g.pred@[v as int]@.len() == 0 ==> old(self).level_of_node@[v as int] == 0)
                ==> *final(self) == *old(self),
            final(self).node_separation == old(self).node_separation,
            final(self).global_tasks_in_first_row == old(self).global_tasks_in_first_row,
    {
        let ghost es = g.edges@;
        let ghost cs = comp_set(comps, c);
        let ghost start = *self;
        let members = &comps.members[c];
        let mut k: usize = 0;
        while k < members.len()
            invariant
                g.wf(),
                comps.partitions(g),
                c < comps.members@.len(),
                members == comps.members@[c as int],
                cs == comp_set(comps, c),
                es == g.edges@,
                k <= members@.len(),
                self.placed(cs),
                self.sized(g.n as nat),
                levels_respect_edges(es, self.level_of_node@, cs),
                rows_within(self.layers@, (wb@ + k) as nat),
                self.layers@.len() == start.layers@.len(),
                forall|q: int| 0 <= q < k && g.pred@[members@[q] as int]@.len() == 0 ==> self.level_of_node@[#[trigger] members@[q] as int] == 0,
                forall|v: usize|
                    #[trigger] cs.contains(v) && g.pred@[v as int]@.len() != 0 ==> self.level_of_node@[v as int]
                        == start.level_of_node@[v as int],
                self.node_separation == start.node_separation,
                self.global_tasks_in_first_row == start.global_tasks_in_first_row,
                (forall|v: usize|
                    #[trigger] cs.contains(v) && g.pred@[v as int]@.len() == 0 ==> start.level_of_node@[v as int] == 0) ==> *self == start,
            decreases members@.len() - k,
        {
            let v = members[k];
            assert(cs.contains(v));
            if g.pred[v].len() == 0 && self.level_of_node[v] != 0 {
                let ghost before = *self;
                self.remove_from_level(Ghost(cs), v);
                self.add_node_to_level(v, 0, Ghost(cs.remove(v)));
                proof {
                    assert(cs.remove(v).insert(v) =~= cs);
                    assert forall|l: int| 0 <= l < self.layers@.len() implies (#[trigger] self.layers@[l])@.len() <= wb@ + k + 1 by {
                        assert(before.layers@[l]@.len() <= wb@ + k);
                    }
                    assert forall|i: int|
                        0 <= i < es.len() && cs.contains((#[trigger] es[i]).0) && cs.contains(es[i].1)
                        implies self.level_of_node@[es[i].0 as int] < self.level_of_node@[es[i].1 as int] by {
                        let x = es[i].0;
                        let y = es[i].1;
                        assert(before.level_of_node@[x as int] < before.level_of_node@[y as int]);
                        if y == v {
                            assert(g.pred@[v as int]@.contains(x));
                        }
                    }
                    assert forall|q: int| 0 <= q < k + 1 && g.pred@[members@[q] as int]@.len() == 0
                        implies self.level_of_node@[#[trigger] members@[q] as int] == 0 by {
                        if q < k {
                            assert(members@[q] != v);
                        }
                    }
                }
            }
            k = k + 1;
        }
        proof {
            assert forall|v: usize| #[trigger] cs.contains(v) && g.pred@[v as int]@.len() == 0
                implies self.level_of_node@[v as int] == 0 by {
                let q = choose|q: int| 0 <= q < members@.len() && members@[q] == v;
                assert(self.level_of_node@[members@[q] as int] == 0);
            }
        }
    }

    /// Lays out component `c`: levels, centring, refinement and, when asked
    /// for, the lift of sources to the top level.
    fn align_nodes(&mut self, g: &Graph, comps: &Components, c: usize, order: &Vec<usize>) -> (frame: Ghost<(int, nat)>)
        requires
            g.wf(),
            g.n < 0xffff_ffff,
            comps.partitions(g),
            c < comps.members@.len(),
            is_topological_order(g.n as nat, g.edges@, order@),
            old(self).layers@.len() == 0,
            old(self).sized(g.n as nat),
        ensures
            final(self).placed(comp_set(comps, c)),
            final(self).sized(g.n as nat),
            levels_respect_edges(g.edges@, final(self).level_of_node@, comp_set(comps, c)),
            rows_within(final(self).layers@, (2 * g.n + 1) as nat),
            final(self).layers@.len() <= g.n,
            final(self).framed(comp_set(comps, c), frame@.0, frame@.1),
            rows_within(final(self).layers@, frame@.1),
            frame@.1 >= 1,
            final(self).global_tasks_in_first_row ==> forall|v: usize|
                #[trigger] comp_set(comps, c).contains(v) && g.pred@[v as int]@.len() == 0 ==> final(self).level_of_node@[v as int] == 0,
            final(self).grid() == aligned_grid(g, comps, c, old(self).grid(), order@),
            final(self).node_separation == old(self).node_separation,
            final(self).global_tasks_in_first_row == old(self).global_tasks_in_first_row,
    {
        let ghost cs = comp_set(comps, c);
        let ghost g_start = self.grid();
        proof {
            lemma_comp_closed(g, comps, c);
            lemma_increasing_len(comps.members@[c as int]@, g.n as nat);
        }
        self.arrange_nodes_in_levels(g, comps, c, order);
        self.move_nodes_up(g, comps, c);
        self.move_nodes_down(g, comps, c);
        proof {
            let v0 = comps.members@[c as int]@[0];
            assert(cs.contains(v0));
        }
        let w = self.center_levels(Ghost(cs), g.n);
        let ghost wb = (w + 1) as nat;
        let ghost lw = choose|lw: int| 0 <= lw < self.layers@.len() && full_row(#[trigger] self.layers@[lw]@, wb);
        proof {
            assert forall|v: usize| #[trigger] cs.contains(v) implies self.index_of_node@[v as int] >= 1 by {
                if self.index_of_node@[v as int] == 0 {
                    assert(self.layers@[self.level_of_node@[v as int] as int]@[0] is Some);
                }
            }
        }
        assert(rows_within(self.layers@, wb));
        self.refine(g, Ghost(cs), Ghost(lw), Ghost(wb));
        let ghost refined = *self;
        if self.global_tasks_in_first_row {
            self.lift_sources(g, comps, c, Ghost(wb));
        }
        assert(*self == refined);
        proof {
            assert forall|l: int| 0 <= l < self.layers@.len() implies (#[trigger] self.layers@[l])@.len() <= 2 * g.n + 1 by {
                assert(self.layers@[l]@.len() <= wb);
            }
        }
        Ghost((lw, wb))
    }
}

/// The positions of one component's vertices, keyed by vertex identifier.
pub type NodePositions = HashMap<usize, (isize, isize)>;

/// No identifier occurs twice.
pub open spec fn ids_unique(ids: Seq<u32>) -> bool {
    forall|a: int, b: int| 0 <= a < b < ids.len() ==> ids[a] != ids[b]
}

/// No edge enters `v`.
pub open spec fn is_source(es: Seq<(usize, usize)>, v: usize) -> bool {
    forall|i: int| 0 <= i < es.len() ==> (#[trigger] es[i]).1 != v
}

/// `p` lies on the grid: a non-negative multiple of `sep` across, a
/// non-positive multiple of `sep` down.
pub open spec fn grid_point(p: (isize, isize), sep: int) -> bool {
    &&& p.0 >= 0
    &&& (p.0 as int) % sep == 0
    &&& p.1 <= 0
    &&& (p.1 as int) % sep == 0
}

/// The distinct `x` coordinates of a layout.
pub open spec fn column_values(pos: Map<usize, (isize, isize)>) -> Set<int> {
    Set::new(|x: int| exists|k: usize| #[trigger] pos.contains_key(k) && pos[k].0 as int == x)
}

/// The distinct `y` coordinates of a layout.
pub open spec fn row_values(pos: Map<usize, (isize, isize)>) -> Set<int> {
    Set::new(|y: int| exists|k: usize| #[trigger] pos.contains_key(k) && pos[k].1 as int == y)
}

/// `pos` is a layout of the vertices `cs` (identified through `ids`) on the
/// grid of spacing `sep`: exactly their identifiers are keys, every edge
/// leaving a vertex of `cs` points strictly down, and when `roots_to_top`
/// holds the vertices without incoming edges are on the top row.
pub open spec fn component_emitted(
    ids: Seq<u32>,
    es: Seq<(usize, usize)>,
    cs: Set<usize>,
    sep: int,
    roots_to_top: bool,
    pos: Map<usize, (isize, isize)>,
    width: nat,
    height: nat,
) -> bool {
    &&& forall|v: usize| #[trigger] cs.contains(v) ==> pos.contains_key(ids[v as int] as usize)
    &&& forall|k: usize| #[trigger] pos.contains_key(k) ==> exists|v: usize| cs.contains(v) && ids[v as int] as usize == k
    &&& forall|k: usize| #[trigger] pos.contains_key(k) ==> grid_point(pos[k], sep)
    &&& forall|i: int|
        0 <= i < es.len() && cs.contains((#[trigger] es[i]).0) ==> pos[ids[es[i].0 as int] as usize].1 > pos[ids[es[i].1 as int] as usize].1
    &&& roots_to_top ==> forall|v: usize| #[trigger] cs.contains(v) && is_source(es, v) ==> pos[ids[v as int] as usize].1 == 0
    &&& width >= 1
    &&& height >= 1
    &&& row_values(pos).finite()
    &&& height == row_values(pos).len()
    &&& column_values(pos).finite()
    &&& width == column_values(pos).len()
    &&& pos.dom().finite()
    &&& pos.dom().len() <= 2 ==> forall|v: usize| #[trigger] cs.contains(v) ==> pos[ids[v as int] as usize] == (sep as isize, if is_source(es, v) {
        0isize
    } else {
        -sep as isize
    })
}

/// A row holding a vertex has an occupied slot.
proof fn lemma_occupied_pos(row: Seq<Option<usize>>, i: int)
    requires
        0 <= i < row.len(),
        row[i] is Some,
    ensures
        occupied(row) >= 1,
    decreases row.len(),
{
    if i < row.len() - 1 {
        lemma_occupied_pos(row.drop_last(), i);
    }
}

/// 1 when level 0 of `layers` holds no vertex, 0 otherwise.
pub open spec fn top_offset(layers: Seq<Vec<Option<usize>>>) -> int {
    if layers.len() > 0 && exists|i: int| 0 <= i < layers[0]@.len() && (#[trigger] layers[0]@[i]) is Some {
        0
    } else {
        1
    }
}

/// Whether slot `(level, index)` comes before slot `(l, i)` in reading order.
pub open spec fn slot_before(level: usize, index: usize, l: int, i: int) -> bool {
    level < l || (level == l && index < i)
}

impl GraphLayout {
    /// The coordinates of a vertex at column `i` of level `l`.
    pub open spec fn coords(&self, offset: int, l: int, i: int) -> (isize, isize) {
        ((i * self.node_separation) as isize, ((offset - l) * self.node_separation) as isize)
    }

    /// The state is ready for emission: coordinates of every slot fit.
    pub open spec fn emit_ready(&self, cs: Set<usize>, ids: Seq<u32>, n: nat) -> bool {
        &&& self.placed(cs)
        &&& self.sized(n)
        &&& ids.len() == n
        &&& ids_unique(ids)
        &&& rows_within(self.layers@, 2 * n + 1)
        &&& self.layers@.len() <= n
        &&& self.node_separation > 0
        &&& (2 * n + 2) * self.node_separation <= isize::MAX
    }

    /// `pos` holds exactly the vertices of `cs` in slots before `(l, i)`,
    /// each at its coordinates.
    pub open spec fn emitted_upto(
        &self,
        cs: Set<usize>,
        ids: Seq<u32>,
        offset: int,
        pos: Map<usize, (isize, isize)>,
        l: int,
        i: int,
    ) -> bool {
        &&& forall|v: usize|
            #[trigger] cs.contains(v) && slot_before(self.level_of_node@[v as int], self.index_of_node@[v as int], l, i)
                ==> pos.contains_key(ids[v as int] as usize) && pos[ids[v as int] as usize] == self.coords(
                offset,
                self.level_of_node@[v as int] as int,
                self.index_of_node@[v as int] as int,
            )
        &&& forall|k: usize|
            #[trigger] pos.contains_key(k) ==> exists|v: usize|
                cs.contains(v) && ids[v as int] as usize == k && slot_before(
                    self.level_of_node@[v as int],
                    self.index_of_node@[v as int],
                    l,
                    i,
                )
    }

    proof fn lemma_emit_empty_slot(&self, cs: Set<usize>, ids: Seq<u32>, offset: int, pos: Map<usize, (isize, isize)>, l: int, i: int)
        requires
            self.placed(cs),
            self.emitted_upto(cs, ids, offset, pos, l, i),
            0 <= l < self.layers@.len(),
            0 <= i < self.layers@[l]@.len(),
            self.layers@[l]@[i] is None,
        ensures
            self.emitted_upto(cs, ids, offset, pos, l, i + 1),
    {
        assert forall|u: usize|
            #[trigger] cs.contains(u) && slot_before(self.level_of_node@[u as int], self.index_of_node@[u as int], l, i + 1)
            implies pos.contains_key(ids[u as int] as usize) && pos[ids[u as int] as usize] == self.coords(
            offset,
            self.level_of_node@[u as int] as int,
            self.index_of_node@[u as int] as int,
        ) by {
            if self.level_of_node@[u as int] == l && self.index_of_node@[u as int] == i {
                assert(self.layers@[l]@[i] == Some(u));
            }
        }
        assert forall|k: usize| #[trigger] pos.contains_key(k) implies exists|u: usize|
            cs.contains(u) && ids[u as int] as usize == k && slot_before(
                self.level_of_node@[u as int],
                self.index_of_node@[u as int],
                l,
                i + 1,
            ) by {
            let u = choose|u: usize| cs.contains(u) && ids[u as int] as usize == k && slot_before(
                self.level_of_node@[u as int],
                self.index_of_node@[u as int],
                l,
                i,
            );
        }
    }

    proof fn lemma_emit_vertex(
        &self,
        cs: Set<usize>,
        ids: Seq<u32>,
        offset: int,
        pos: Map<usize, (isize, isize)>,
        l: int,
        i: int,
        v: usize,
    )
        requires
            self.placed(cs),
            self.sized(ids.len()),
            ids_unique(ids),
            self.emitted_upto(cs, ids, offset, pos, l, i),
            0 <= l < self.layers@.len(),
            0 <= i < self.layers@[l]@.len(),
            self.layers@[l]@[i] == Some(v),
        ensures
            self.emitted_upto(cs, ids, offset, pos.insert(ids[v as int] as usize, self.coords(offset, l, i)), l, i + 1),
    {
        let key = ids[v as int] as usize;
        let pos2 = pos.insert(key, self.coords(offset, l, i));
        assert(cs.contains(v));
        assert forall|u: usize|
            #[trigger] cs.contains(u) && slot_before(self.level_of_node@[u as int], self.index_of_node@[u as int], l, i + 1)
            implies pos2.contains_key(ids[u as int] as usize) && pos2[ids[u as int] as usize] == self.coords(
            offset,
            self.level_of_node@[u as int] as int,
            self.index_of_node@[u as int] as int,
        ) by {
            if u != v {
                assert(ids[u as int] != ids[v as int]);
                if self.level_of_node@[u as int] == l && self.index_of_node@[u as int] == i {
                    assert(self.layers@[l]@[i] == Some(u));
                }
            }
        }
        assert forall|k: usize| #[trigger] pos2.contains_key(k) implies exists|u: usize|
            cs.contains(u) && ids[u as int] as usize == k && slot_before(
                self.level_of_node@[u as int],
                self.index_of_node@[u as int],
                l,
                i + 1,
            ) by {
            if k != key {
                assert(pos.contains_key(k));
                let u = choose|u: usize| cs.contains(u) && ids[u as int] as usize == k && slot_before(
                    self.level_of_node@[u as int],
                    self.index_of_node@[u as int],
                    l,
                    i,
                );
            } else {
                assert(slot_before(self.level_of_node@[v as int], self.index_of_node@[v as int], l, i + 1));
            }
        }
    }

    proof fn lemma_emit_next_level(&self, cs: Set<usize>, ids: Seq<u32>, offset: int, pos: Map<usize, (isize, isize)>, l: int)
        requires
            self.placed(cs),
            0 <= l < self.layers@.len(),
            self.emitted_upto(cs, ids, offset, pos, l, self.layers@[l]@.len() as int),
        ensures
            self.emitted_upto(cs, ids, offset, pos, l + 1, 0),
    {
        assert forall|u: usize|
            #[trigger] cs.contains(u) && slot_before(self.level_of_node@[u as int], self.index_of_node@[u as int], l + 1, 0)
            implies pos.contains_key(ids[u as int] as usize) && pos[ids[u as int] as usize] == self.coords(
            offset,
            self.level_of_node@[u as int] as int,
            self.index_of_node@[u as int] as int,
        ) by {
            assert(slot_before(self.level_of_node@[u as int], self.index_of_node@[u as int], l, self.layers@[l]@.len() as int));
        }
        assert forall|k: usize| #[trigger] pos.contains_key(k) implies exists|u: usize|
            cs.contains(u) && ids[u as int] as usize == k && slot_before(
                self.level_of_node@[u as int],
                self.index_of_node@[u as int],
                l + 1,
                0,
            ) by {
            let u = choose|u: usize| cs.contains(u) && ids[u as int] as usize == k && slot_before(
                self.level_of_node@[u as int],
                self.index_of_node@[u as int],
                l,
                self.layers@[l]@.len() as int,
            );
        }
    }

    /// 1 when level 0 holds no vertex, 0 otherwise.
    fn level_offset(&self, cs: Ghost<Set<usize>>) -> (offset: isize)
        requires
            self.placed(cs@),
            self.layers@.len() > 0,
        ensures
            offset == top_offset(self.layers@),
            offset == 0 || offset == 1,
            offset == 1 ==> forall|v: usize| #[trigger] cs@.contains(v) ==> self.level_of_node@[v as int] >= 1,
    {
        let mut offset: isize = 1;
        let mut i: usize = 0;
        while i < self.layers[0].len()
            invariant
                self.placed(cs@),
                0 < self.layers@.len(),
                offset == 0 || offset == 1,
                offset == 1 ==> forall|j: int| 0 <= j < i ==> (#[trigger] self.layers@[0]@[j]) is None,
                offset == 0 ==> exists|j: int| 0 <= j < i && (#[trigger] self.layers@[0]@[j]) is Some,
                i <= self.layers@[0]@.len(),
            decreases self.layers@[0]@.len() - i,
        {
            if self.layers[0][i].is_some() {
                offset = 0;
            }
            i = i + 1;
        }
        proof {
            if offset == 1 {
                assert forall|v: usize| #[trigger] cs@.contains(v) implies self.level_of_node@[v as int] >= 1 by {
                    if self.level_of_node@[v as int] == 0 {
                        assert(self.layers@[0]@[self.index_of_node@[v as int] as int] is Some);
                    }
                }
            }
        }
        offset
    }

    /// Records the coordinates of the vertices on level `l`.
    fn emit_level(&self, cs: Ghost<Set<usize>>, ids: &[u32], n: Ghost<nat>, offset: isize, l: usize, positions: &mut NodePositions)
        requires
            self.emit_ready(cs@, ids@, n@),
            offset == 0 || offset == 1,
            l < self.layers@.len(),
            self.emitted_upto(cs@, ids@, offset as int, old(positions)@, l as int, 0),
        ensures
            self.emitted_upto(cs@, ids@, offset as int, final(positions)@, l as int + 1, 0),
    {
        broadcast use vstd::std_specs::hash::group_hash_axioms;

        let sep = self.node_separation;
        let mut i: usize = 0;
        while i < self.layers[l].len()
            invariant
                self.emit_ready(cs@, ids@, n@),
                sep == self.node_separation,
                offset == 0 || offset == 1,
                l < self.layers@.len(),
                i <= self.layers@[l as int]@.len(),
                self.emitted_upto(cs@, ids@, offset as int, positions@, l as int, i as int),
            decreases self.layers@[l as int]@.len() - i,
        {
            if let Some(v) = self.layers[l][i] {
                proof {
                    let nn = n@ as int;
                    assert(self.layers@[l as int]@.len() <= 2 * nn + 1);
                    assert(2 * nn + 2 <= isize::MAX && i as int * sep <= (2 * nn + 2) * sep) by (nonlinear_arith)
                        requires
                            i <= 2 * nn + 1,
                            sep >= 1,
                            (2 * nn + 2) * sep <= isize::MAX,
                    ;
                    assert(-((2 * nn + 2) * sep) <= (offset - l) * sep <= (2 * nn + 2) * sep) by (nonlinear_arith)
                        requires
                            0 <= offset <= 1,
                            0 <= l < nn,
                            sep > 0,
                    ;
                }
                let li = l as isize;
                assert(li as int == l as int);
                assert((offset - li) * sep == (offset - l) * sep);
                let x = i as isize * sep;
                let y = (offset - li) * sep;
                proof {
                    self.lemma_emit_vertex(cs@, ids@, offset as int, positions@, l as int, i as int, v);
                }
                positions.insert(ids[v] as usize, (x, y));
            } else {
                proof {
                    self.lemma_emit_empty_slot(cs@, ids@, offset as int, positions@, l as int, i as int);
                }
            }
            i = i + 1;
        }
        proof {
            self.lemma_emit_next_level(cs@, ids@, offset as int, positions@, l as int);
        }
    }

    /// The largest number of vertices on one level.
    fn get_width(&self) -> (r: usize)
        ensures
            forall|l: int| 0 <= l < self.layers@.len() ==> occupied(#[trigger] self.layers@[l]@) <= r,
            self.layers@.len() > 0 ==> exists|l: int| 0 <= l < self.layers@.len() && occupied(#[trigger] self.layers@[l]@) == r,
            self.layers@.len() == 0 ==> r == 0,
    {
        let mut width: usize = 0;
        let mut l: usize = 0;
        while l < self.layers.len()
            invariant
                l <= self.layers@.len(),
                forall|ll: int| 0 <= ll < l ==> occupied(#[trigger] self.layers@[ll]@) <= width,
                l > 0 ==> exists|ll: int| 0 <= ll < l && occupied(#[trigger] self.layers@[ll]@) == width,
                l == 0 ==> width == 0,
            decreases self.layers@.len() - l,
        {
            let cnt = count_occupied(&self.layers[l]);
            if cnt > width || l == 0 {
                if l == 0 {
                    assert(forall|ll: int| 0 <= ll < l ==> occupied(#[trigger] self.layers@[ll]@) <= cnt);
                }
                width = cnt;
            }
            l = l + 1;
        }
        width
    }

    /// The number of levels that hold a vertex.
    fn get_nums_of_level(&self) -> (r: usize)
        ensures
            r == nonempty_levels(self.layers@),
    {
        let mut num_levels: usize = 0;
        let mut l: usize = 0;
        while l < self.layers.len()
            invariant
                l <= self.layers@.len(),
                num_levels == nonempty_levels(self.layers@.subrange(0, l as int)),
                num_levels <= l,
            decreases self.layers@.len() - l,
        {
            assert(self.layers@.subrange(0, l as int + 1).drop_last() =~= self.layers@.subrange(0, l as int));
            let cnt = count_occupied(&self.layers[l]);
            if cnt > 0 {
                num_levels = num_levels + 1;
            }
            l = l + 1;
        }
        assert(self.layers@.subrange(0, l as int) =~= self.layers@);
        num_levels
    }

    /// The coordinates of a vertex of the grid fit in an `isize`.
    proof fn lemma_coords_exact(&self, cs: Set<usize>, ids: Seq<u32>, n: nat, offset: int, u: usize)
        requires
            self.emit_ready(cs, ids, n),
            offset == 0 || offset == 1,
            cs.contains(u),
        ensures
            self.coords(offset, self.level_of_node@[u as int] as int, self.index_of_node@[u as int] as int).0 as int
                == self.index_of_node@[u as int] as int * self.node_separation,
            self.coords(offset, self.level_of_node@[u as int] as int, self.index_of_node@[u as int] as int).1 as int
                == (offset - self.level_of_node@[u as int] as int) * self.node_separation,
    {
        let sep = self.node_separation as int;
        let lu = self.level_of_node@[u as int] as int;
        let iu = self.index_of_node@[u as int] as int;
        let nn = n as int;
        assert(self.layers@[lu]@.len() <= 2 * nn + 1);
        assert(0 <= iu * sep <= (2 * nn + 2) * sep) by (nonlinear_arith)
            requires
                0 <= iu <= 2 * nn + 1,
                sep >= 1,
        ;
        assert(-((2 * nn + 2) * sep) <= (offset - lu) * sep <= (2 * nn + 2) * sep) by (nonlinear_arith)
            requires
                0 <= offset <= 1,
                0 <= lu < nn,
                sep > 0,
        ;
    }

    proof fn lemma_emitted_keys(&self, cs: Set<usize>, ids: Seq<u32>, offset: int, pos: Map<usize, (isize, isize)>)
        requires
            self.placed(cs),
            self.emitted_upto(cs, ids, offset, pos, self.layers@.len() as int, 0),
        ensures
            forall|v: usize| #[trigger] cs.contains(v) ==> pos.contains_key(ids[v as int] as usize),
            forall|k: usize| #[trigger] pos.contains_key(k) ==> exists|v: usize| cs.contains(v) && ids[v as int] as usize == k,
    {
        assert forall|v: usize| #[trigger] cs.contains(v) implies pos.contains_key(ids[v as int] as usize) by {
            assert(slot_before(self.level_of_node@[v as int], self.index_of_node@[v as int], self.layers@.len() as int, 0));
        }
        assert forall|k: usize| #[trigger] pos.contains_key(k) implies exists|v: usize| cs.contains(v) && ids[v as int] as usize == k by {
            let u = choose|u: usize| cs.contains(u) && ids[u as int] as usize == k && slot_before(
                self.level_of_node@[u as int],
                self.index_of_node@[u as int],
                self.layers@.len() as int,
                0,
            );
        }
    }

    proof fn lemma_emitted_grid(&self, cs: Set<usize>, ids: Seq<u32>, n: nat, offset: int, pos: Map<usize, (isize, isize)>)
        requires
            self.emit_ready(cs, ids, n),
            offset == 0 || offset == 1,
            offset == 1 ==> forall|v: usize| #[trigger] cs.contains(v) ==> self.level_of_node@[v as int] >= 1,
            self.emitted_upto(cs, ids, offset, pos, self.layers@.len() as int, 0),
        ensures
            forall|k: usize| #[trigger] pos.contains_key(k) ==> grid_point(pos[k], self.node_separation as int),
    {
        let sep = self.node_separation as int;
        assert forall|k: usize| #[trigger] pos.contains_key(k) implies grid_point(pos[k], sep) by {
            let u = choose|u: usize| cs.contains(u) && ids[u as int] as usize == k && slot_before(
                self.level_of_node@[u as int],
                self.index_of_node@[u as int],
                self.layers@.len() as int,
                0,
            );
            let lu = self.level_of_node@[u as int] as int;
            let iu = self.index_of_node@[u as int] as int;
            assert(pos[ids[u as int] as usize] == self.coords(offset, lu, iu));
            self.lemma_coords_exact(cs, ids, n, offset, u);
            vstd::arithmetic::div_mod::lemma_mod_multiples_basic(iu, sep);
            vstd::arithmetic::div_mod::lemma_mod_multiples_basic(offset - lu, sep);
            assert(iu * sep >= 0) by (nonlinear_arith)
                requires
                    iu >= 0,
                    sep > 0,
            ;
            assert((offset - lu) * sep <= 0) by (nonlinear_arith)
                requires
                    offset - lu <= 0,
                    sep > 0,
            ;
        }
    }

    proof fn lemma_emitted_edges(&self, g: &Graph, comps: &Components, c: usize, ids: Seq<u32>, offset: int, pos: Map<usize, (isize, isize)>)
        requires
            g.wf(),
            comps.partitions(g),
            self.emit_ready(comp_set(comps, c), ids, g.n as nat),
            offset == 0 || offset == 1,
            levels_respect_edges(g.edges@, self.level_of_node@, comp_set(comps, c)),
            self.emitted_upto(comp_set(comps, c), ids, offset, pos, self.layers@.len() as int, 0),
        ensures
            forall|e: int|
                0 <= e < g.edges@.len() && comp_set(comps, c).contains((#[trigger] g.edges@[e]).0) ==> pos[ids[g.edges@[e].0 as int] as usize].1
                    > pos[ids[g.edges@[e].1 as int] as usize].1,
    {
        let cs = comp_set(comps, c);
        let es = g.edges@;
        let sep = self.node_separation as int;
        assert forall|e: int|
            0 <= e < es.len() && cs.contains((#[trigger] es[e]).0) implies pos[ids[es[e].0 as int] as usize].1
            > pos[ids[es[e].1 as int] as usize].1 by {
            let a = es[e].0;
            let b = es[e].1;
            assert(comps.comp_of@[es[e].0 as int] == comps.comp_of@[es[e].1 as int]);
            assert(cs.contains(b));
            assert(slot_before(self.level_of_node@[a as int], self.index_of_node@[a as int], self.layers@.len() as int, 0));
            assert(slot_before(self.level_of_node@[b as int], self.index_of_node@[b as int], self.layers@.len() as int, 0));
            let la = self.level_of_node@[a as int] as int;
            let lb = self.level_of_node@[b as int] as int;
            assert(la < lb);
            self.lemma_coords_exact(cs, ids, g.n as nat, offset, a);
            self.lemma_coords_exact(cs, ids, g.n as nat, offset, b);
            assert((offset - la) * sep > (offset - lb) * sep) by (nonlinear_arith)
                requires
                    la < lb,
                    sep > 0,
            ;
        }
    }

    proof fn lemma_emitted_sources(&self, g: &Graph, comps: &Components, c: usize, ids: Seq<u32>, offset: int, pos: Map<usize, (isize, isize)>)
        requires
            g.wf(),
            comps.partitions(g),
            self.emit_ready(comp_set(comps, c), ids, g.n as nat),
            offset == 0 || offset == 1,
            offset == 1 ==> forall|v: usize| #[trigger] comp_set(comps, c).contains(v) ==> self.level_of_node@[v as int] >= 1,
            forall|v: usize|
                #[trigger] comp_set(comps, c).contains(v) && g.pred@[v as int]@.len() == 0 ==> self.level_of_node@[v as int] == 0,
            self.emitted_upto(comp_set(comps, c), ids, offset, pos, self.layers@.len() as int, 0),
        ensures
            forall|v: usize| #[trigger] comp_set(comps, c).contains(v) && is_source(g.edges@, v) ==> pos[ids[v as int] as usize].1 == 0,
    {
        let cs = comp_set(comps, c);
        let es = g.edges@;
        assert forall|v: usize| #[trigger] cs.contains(v) && is_source(es, v) implies pos[ids[v as int] as usize].1 == 0 by {
            if g.pred@[v as int]@.len() != 0 {
                let p = g.pred@[v as int]@[0];
                let e = choose|e: int| 0 <= e < es.len() && es[e] == (p, v);
                assert(es[e].1 == v);
            }
            assert(slot_before(self.level_of_node@[v as int], self.index_of_node@[v as int], self.layers@.len() as int, 0));
            assert(self.level_of_node@[v as int] == 0);
            if offset == 1 {
                assert(self.level_of_node@[v as int] >= 1);
            }
            self.lemma_coords_exact(cs, ids, g.n as nat, offset, v);
            assert(pos[ids[v as int] as usize] == self.coords(offset, 0, self.index_of_node@[v as int] as int));
            assert(offset == 0);
            assert((offset - 0) * (self.node_separation as int) == 0) by (nonlinear_arith)
                requires
                    offset == 0,
            ;
        }
    }

    /// The distinct `y` coordinates are as many as the non-empty levels.
    proof fn lemma_emitted_rows(&self, cs: Set<usize>, ids: Seq<u32>, n: nat, offset: int, pos: Map<usize, (isize, isize)>)
        requires
            self.emit_ready(cs, ids, n),
            offset == 0 || offset == 1,
            self.emitted_upto(cs, ids, offset, pos, self.layers@.len() as int, 0),
        ensures
            row_values(pos).finite(),
            row_values(pos).len() == nonempty_levels(self.layers@),
    {
        let sep = self.node_separation as int;
        let f = |l: int| (offset - l) * sep;
        let ne = nonempty_set(self.layers@);
        lemma_nonempty_set(self.layers@);
        assert forall|y: int| #[trigger] row_values(pos).contains(y) implies ne.map(f).contains(y) by {
            let k = choose|k: usize| #[trigger] pos.contains_key(k) && pos[k].1 as int == y;
            let u = choose|u: usize| cs.contains(u) && ids[u as int] as usize == k && slot_before(
                self.level_of_node@[u as int],
                self.index_of_node@[u as int],
                self.layers@.len() as int,
                0,
            );
            let lu = self.level_of_node@[u as int] as int;
            self.lemma_coords_exact(cs, ids, n, offset, u);
            lemma_occupied_pos(self.layers@[lu]@, self.index_of_node@[u as int] as int);
            assert(ne.contains(lu));
            assert(f(lu) == y);
        }
        assert forall|y: int| #[trigger] ne.map(f).contains(y) implies row_values(pos).contains(y) by {
            let l = choose|l: int| ne.contains(l) && f(l) == y;
            let i = lemma_occupied_some(self.layers@[l]@);
            assert(self.layers@[l]@[i] is Some);
            let w = self.layers@[l]@[i]->0;
            assert(cs.contains(w));
            self.lemma_coords_exact(cs, ids, n, offset, w);
            assert(slot_before(self.level_of_node@[w as int], self.index_of_node@[w as int], self.layers@.len() as int, 0));
            let k = ids[w as int] as usize;
            assert(pos.contains_key(k) && pos[k].1 as int == y);
        }
        assert(ne.map(f) =~= row_values(pos));
        assert forall|l1: int, l2: int| ne.contains(l1) && ne.contains(l2) && #[trigger] f(l1) == #[trigger] f(l2) implies l1 == l2 by {
            assert((offset - l1) * sep == (offset - l2) * sep ==> l1 == l2) by (nonlinear_arith)
                requires
                    sep > 0,
            ;
        }
        vstd::set_lib::lemma_map_size(ne, row_values(pos), f);
    }

    /// The distinct `x` coordinates are the columns `1..w` of the full level.
    proof fn lemma_emitted_columns(&self, cs: Set<usize>, ids: Seq<u32>, n: nat, offset: int, pos: Map<usize, (isize, isize)>, lw: int, w: nat)
        requires
            self.emit_ready(cs, ids, n),
            offset == 0 || offset == 1,
            self.emitted_upto(cs, ids, offset, pos, self.layers@.len() as int, 0),
            self.framed(cs, lw, w),
            rows_within(self.layers@, w),
            w >= 1,
        ensures
            column_values(pos).finite(),
            column_values(pos).len() == w - 1,
            max_occupied(self.layers@) == w - 1,
    {
        let sep = self.node_separation as int;
        let f = |i: int| i * sep;
        let cols = vstd::set_lib::set_int_range(1, w as int);
        vstd::set_lib::lemma_int_range(1, w as int);
        assert forall|x: int| #[trigger] column_values(pos).contains(x) implies cols.map(f).contains(x) by {
            let k = choose|k: usize| #[trigger] pos.contains_key(k) && pos[k].0 as int == x;
            let u = choose|u: usize| cs.contains(u) && ids[u as int] as usize == k && slot_before(
                self.level_of_node@[u as int],
                self.index_of_node@[u as int],
                self.layers@.len() as int,
                0,
            );
            let iu = self.index_of_node@[u as int] as int;
            self.lemma_coords_exact(cs, ids, n, offset, u);
            assert(self.layers@[self.level_of_node@[u as int] as int]@.len() <= w);
            assert(cols.contains(iu));
            assert(f(iu) == x);
        }
        assert forall|x: int| #[trigger] cols.map(f).contains(x) implies column_values(pos).contains(x) by {
            let i = choose|i: int| cols.contains(i) && f(i) == x;
            assert(self.layers@[lw]@[i] is Some);
            let u = self.layers@[lw]@[i]->0;
            assert(cs.contains(u));
            self.lemma_coords_exact(cs, ids, n, offset, u);
            assert(slot_before(self.level_of_node@[u as int], self.index_of_node@[u as int], self.layers@.len() as int, 0));
            let k = ids[u as int] as usize;
            assert(pos.contains_key(k) && pos[k].0 as int == x);
        }
        assert(cols.map(f) =~= column_values(pos));
        assert forall|i1: int, i2: int| cols.contains(i1) && cols.contains(i2) && #[trigger] f(i1) == #[trigger] f(i2) implies i1 == i2 by {
            assert(i1 * sep == i2 * sep ==> i1 == i2) by (nonlinear_arith)
                requires
                    sep > 0,
            ;
        }
        vstd::set_lib::lemma_map_size(cols, column_values(pos), f);
        assert forall|l: int| 0 <= l < self.layers@.len() implies occupied(#[trigger] self.layers@[l]@) <= w - 1 by {
            let row = self.layers@[l]@;
            if row.len() >= 1 {
                if row[0] is Some {
                    assert(self.layers@[l]@[0] is Some);
                }
                lemma_occupied_frame(row);
            }
        }
        let row = self.layers@[lw]@;
        if row[0] is Some {
            assert(self.layers@[lw]@[0] is Some);
        }
        lemma_occupied_frame(row);
        lemma_max_occupied(self.layers@, (w - 1) as nat);
    }

    /// Emits the positions of component `c`: column `i` of level `l` at
    /// `(i * s, (offset - l) * s)` for the separation `s`, where `offset` is 1
    /// when level 0 is empty and 0 otherwise; with the largest number of
    /// vertices on one level and the number of non-empty levels.
    fn build_layout(&self, g: &Graph, comps: &Components, c: usize, ids: &[u32], frame: Ghost<(int, nat)>) -> (r: (NodePositions, usize, usize))
        requires
            self.framed(comp_set(comps, c), frame@.0, frame@.1),
            rows_within(self.layers@, frame@.1),
            frame@.1 >= 1,
            comps.members@[c as int]@.len() > 2,
            g.wf(),
            comps.partitions(g),
            c < comps.members@.len(),
            self.emit_ready(comp_set(comps, c), ids@, g.n as nat),
            levels_respect_edges(g.edges@, self.level_of_node@, comp_set(comps, c)),
            self.global_tasks_in_first_row ==> forall|v: usize|
                #[trigger] comp_set(comps, c).contains(v) && g.pred@[v as int]@.len() == 0 ==> self.level_of_node@[v as int] == 0,
        ensures
            component_emitted(ids@, g.edges@, comp_set(comps, c), self.node_separation as int,
                self.global_tasks_in_first_row, r.0@, r.1 as nat, r.2 as nat),
            r.1 as nat == max_occupied(self.layers@),
            r.2 as nat == nonempty_levels(self.layers@),
            forall|v: usize|
                #[trigger] comp_set(comps, c).contains(v) ==> r.0@.contains_key(ids@[v as int] as usize) && r.0@[ids@[v as int] as usize]
                    == self.coords(top_offset(self.layers@), self.level_of_node@[v as int] as int, self.index_of_node@[v as int] as int),
    {
        let ghost cs = comp_set(comps, c);
        let ghost es = g.edges@;
        let sep = self.node_separation;
        let v0 = comps.members[c][0];
        assert(cs.contains(v0));
        let offset = self.level_offset(Ghost(cs));
        let mut positions: NodePositions = HashMap::new();
        let mut l: usize = 0;
        while l < self.layers.len()
            invariant
                self.emit_ready(cs, ids@, g.n as nat),
                offset == 0 || offset == 1,
                l <= self.layers@.len(),
                self.emitted_upto(cs, ids@, offset as int, positions@, l as int, 0),
            decreases self.layers@.len() - l,
        {
            self.emit_level(Ghost(cs), ids, Ghost(g.n as nat), offset, l, &mut positions);
            l = l + 1;
        }
        let width = self.get_width();
        let height = self.get_nums_of_level();
        proof {
            let lv = self.level_of_node@[v0 as int] as int;
            lemma_occupied_pos(self.layers@[lv]@, self.index_of_node@[v0 as int] as int);
            lemma_nonempty_levels_pos(self.layers@, lv);
            lemma_max_occupied(self.layers@, width as nat);
            self.lemma_emitted_keys(cs, ids@, offset as int, positions@);
            lemma_comp_size(g, comps, c);
            lemma_key_count(ids@, cs, positions@);
            self.lemma_emitted_grid(cs, ids@, g.n as nat, offset as int, positions@);
            self.lemma_emitted_rows(cs, ids@, g.n as nat, offset as int, positions@);
            self.lemma_emitted_columns(cs, ids@, g.n as nat, offset as int, positions@, frame@.0, frame@.1);
            assert forall|v: usize| #[trigger] cs.contains(v) implies positions@.contains_key(ids@[v as int] as usize)
                && positions@[ids@[v as int] as usize] == self.coords(offset as int, self.level_of_node@[v as int] as int,
                self.index_of_node@[v as int] as int) by {
                assert(slot_before(self.level_of_node@[v as int], self.index_of_node@[v as int], self.layers@.len() as int, 0));
            }
            self.lemma_emitted_edges(g, comps, c, ids@, offset as int, positions@);
            if self.global_tasks_in_first_row {
                self.lemma_emitted_sources(g, comps, c, ids@, offset as int, positions@);
            }
        }
        (positions, width, height)
    }
}

/// The largest number of vertices on one level (0 for no level).
pub open spec fn max_occupied(layers: Seq<Vec<Option<usize>>>) -> nat
    decreases layers.len(),
{
    if layers.len() == 0 {
        0
    } else {
        let rest = max_occupied(layers.drop_last());
        let last = occupied(layers.last()@);
        if last > rest {
            last
        } else {
            rest
        }
    }
}

/// The number of levels holding a vertex.
pub open spec fn nonempty_levels(layers: Seq<Vec<Option<usize>>>) -> nat
    decreases layers.len(),
{
    if layers.len() == 0 {
        0
    } else {
        nonempty_levels(layers.drop_last()) + if occupied(layers.last()@) > 0 {
            1nat
        } else {
            0nat
        }
    }
}

/// The indices of the levels holding a vertex.
pub open spec fn nonempty_set(layers: Seq<Vec<Option<usize>>>) -> Set<int> {
    Set::new(|l: int| 0 <= l < layers.len() && occupied(layers[l]@) > 0)
}

proof fn lemma_nonempty_set(layers: Seq<Vec<Option<usize>>>)
    ensures
        nonempty_set(layers).finite(),
        nonempty_set(layers).len() == nonempty_levels(layers),
    decreases layers.len(),
{
    if layers.len() == 0 {
        assert(nonempty_set(layers) =~= Set::empty());
    } else {
        let front = layers.drop_last();
        lemma_nonempty_set(front);
        let last = layers.len() - 1;
        if occupied(layers.last()@) > 0 {
            assert(nonempty_set(layers) =~= nonempty_set(front).insert(last));
        } else {
            assert(nonempty_set(layers) =~= nonempty_set(front));
        }
    }
}

/// A row with an occupied slot holds a vertex.
proof fn lemma_occupied_some(row: Seq<Option<usize>>) -> (i: int)
    requires
        occupied(row) > 0,
    ensures
        0 <= i < row.len(),
        row[i] is Some,
    decreases row.len(),
{
    if row.last() is Some {
        row.len() - 1
    } else {
        let i = lemma_occupied_some(row.drop_last());
        assert(row.drop_last()[i] == row[i]);
        i
    }
}

/// The occupied columns of a row.
pub open spec fn occupied_set(row: Seq<Option<usize>>) -> Set<int> {
    Set::new(|i: int| 0 <= i < row.len() && row[i] is Some)
}

proof fn lemma_occupied_set(row: Seq<Option<usize>>)
    ensures
        occupied_set(row).finite(),
        occupied_set(row).len() == occupied(row),
    decreases row.len(),
{
    if row.len() == 0 {
        assert(occupied_set(row) =~= Set::empty());
    } else {
        let front = row.drop_last();
        lemma_occupied_set(front);
        if row.last() is Some {
            assert(occupied_set(row) =~= occupied_set(front).insert(row.len() - 1));
        } else {
            assert(occupied_set(row) =~= occupied_set(front));
        }
    }
}

/// A row whose first slot is empty has fewer occupied slots than slots; a
/// full row has exactly one fewer.
proof fn lemma_occupied_frame(row: Seq<Option<usize>>)
    requires
        row.len() >= 1,
        row[0] is None,
    ensures
        occupied(row) <= row.len() - 1,
        full_row(row, row.len()) ==> occupied(row) == row.len() - 1,
{
    lemma_occupied_set(row);
    vstd::set_lib::lemma_int_range(1, row.len() as int);
    let r = vstd::set_lib::set_int_range(1, row.len() as int);
    assert(occupied_set(row).subset_of(r));
    vstd::set_lib::lemma_len_subset(occupied_set(row), r);
    if full_row(row, row.len()) {
        assert(occupied_set(row) =~= r);
    }
}

proof fn lemma_nonempty_levels_pos(layers: Seq<Vec<Option<usize>>>, l: int)
    requires
        0 <= l < layers.len(),
        occupied(layers[l]@) >= 1,
    ensures
        nonempty_levels(layers) >= 1,
    decreases layers.len(),
{
    if l < layers.len() - 1 {
        lemma_nonempty_levels_pos(layers.drop_last(), l);
    }
}

/// A bound met by every level and reached by one is the largest count.
proof fn lemma_max_occupied(layers: Seq<Vec<Option<usize>>>, w: nat)
    requires
        forall|l: int| 0 <= l < layers.len() ==> occupied(#[trigger] layers[l]@) <= w,
        layers.len() > 0 ==> exists|l: int| 0 <= l < layers.len() && occupied(#[trigger] layers[l]@) == w,
        layers.len() == 0 ==> w == 0,
    ensures
        max_occupied(layers) == w,
    decreases layers.len(),
{
    if layers.len() > 0 {
        let front = layers.drop_last();
        let l = choose|l: int| 0 <= l < layers.len() && occupied(#[trigger] layers[l]@) == w;
        assert forall|k: int| 0 <= k < front.len() implies occupied(#[trigger] front[k]@) <= w by {
            assert(front[k] == layers[k]);
        }
        if l == layers.len() - 1 {
            lemma_max_below(front, w);
        } else {
            assert(front[l] == layers[l]);
            lemma_max_occupied(front, w);
        }
    }
}

proof fn lemma_max_below(layers: Seq<Vec<Option<usize>>>, w: nat)
    requires
        forall|l: int| 0 <= l < layers.len() ==> occupied(#[trigger] layers[l]@) <= w,
    ensures
        max_occupied(layers) <= w,
    decreases layers.len(),
{
    if layers.len() > 0 {
        let front = layers.drop_last();
        assert forall|k: int| 0 <= k < front.len() implies occupied(#[trigger] front[k]@) <= w by {
            assert(front[k] == layers[k]);
        }
        lemma_max_below(front, w);
    }
}

/// A walk that leaves `u` starts with an edge at `u`.
proof fn lemma_walk_leaves(es: Seq<(usize, usize)>, p: Seq<usize>, u: usize)
    requires
        is_walk(es, p),
        p[0] == u,
        p.last() != u,
    ensures
        exists|i: int| 0 <= i < es.len() && ((#[trigger] es[i]).0 == u || es[i].1 == u) && es[i].0 != es[i].1,
    decreases p.len(),
{
    assert(adjacent(es, p[0], p[1]));
    if p[1] != u {
        if has_edge(es, u, p[1]) {
            let i = choose|i: int| 0 <= i < es.len() && es[i] == (u, p[1]);
            assert(es[i].0 == u);
        } else {
            let i = choose|i: int| 0 <= i < es.len() && es[i] == (p[1], u);
            assert(es[i].1 == u);
        }
    } else {
        let q = p.drop_first();
        assert forall|i: int| 0 <= i < q.len() - 1 implies adjacent(es, #[trigger] q[i], q[i + 1]) by {
            assert(q[i] == p[i + 1] && q[i + 1] == p[i + 2]);
            assert(adjacent(es, p[i + 1], p[i + 2]));
        }
        lemma_walk_leaves(es, q, u);
    }
}

/// An acyclic graph has no self loop, and no two edges in opposite directions.
proof fn lemma_no_short_cycle(n: nat, es: Seq<(usize, usize)>, order: Seq<usize>, i: int, j: int)
    requires
        is_topological_order(n, es, order),
        0 <= i < es.len(),
        0 <= j < es.len(),
        es[i].0 < n,
        es[i].1 < n,
    ensures
        es[i].0 != es[i].1,
        !(es[j].0 == es[i].1 && es[j].1 == es[i].0),
{
    assert(order.contains(es[i].0));
    assert(order.contains(es[i].1));
    let a = choose|a: int| 0 <= a < order.len() && order[a] == es[i].0;
    let b = choose|b: int| 0 <= b < order.len() && order[b] == es[i].1;
    assert(order[a] == es[i].0 && order[b] == es[i].1);
    if es[j].0 == es[i].1 && es[j].1 == es[i].0 {
        assert(order[b] == es[j].0 && order[a] == es[j].1);
    }
}

#[verifier::rlimit(60)]
/// Lays out a component of one or two vertices as a single column at `x =
/// sep`: the vertex without predecessors on top at `y = 0`, the other below
/// at `y = -sep`.
fn handle_two_or_less_nodes_graph(
    g: &Graph,
    comps: &Components,
    c: usize,
    ids: &[u32],
    sep: isize,
    roots_to_top: bool,
    order: Ghost<Seq<usize>>,
) -> (r: (NodePositions, usize, usize))
    requires
        g.wf(),
        comps.partitions(g),
        c < comps.members@.len(),
        comps.members@[c as int]@.len() <= 2,
        ids@.len() == g.n,
        ids_unique(ids@),
        sep > 0,
        is_topological_order(g.n as nat, g.edges@, order@),
    ensures
        component_emitted(ids@, g.edges@, comp_set(comps, c), sep as int, roots_to_top, r.0@, r.1 as nat, r.2 as nat),
        r.1 == 1,
        r.2 == comps.members@[c as int]@.len(),
{
    broadcast use vstd::std_specs::hash::group_hash_axioms;

    let ghost cs = comp_set(comps, c);
    let ghost es = g.edges@;
    let members = &comps.members[c];
    let ghost mem = members@;
    assert(mem.len() > 0);
    assert(cs.contains(mem[0]));
    assert forall|v: usize| cs.contains(v) implies mem.contains(v) by {
        assert(comps.members@[comps.comp_of@[v as int] as int]@.contains(v));
    }
    let mut positions: NodePositions = HashMap::new();
    let first: usize;
    let mut second: usize = 0;
    if members.len() == 1 {
        first = members[0];
        positions.insert(ids[first] as usize, (sep, 0));
        proof {
            vstd::arithmetic::div_mod::lemma_mod_multiples_basic(1, sep as int);
            vstd::arithmetic::div_mod::lemma_mod_multiples_basic(0, sep as int);
            assert(cs =~= set![first]) by {
                assert forall|v: usize| cs.contains(v) implies v == first by {
                    assert(mem.contains(v));
                }
            }
            assert forall|e: int| 0 <= e < es.len() && cs.contains((#[trigger] es[e]).0) implies false by {
                assert(comps.comp_of@[es[e].0 as int] == comps.comp_of@[es[e].1 as int]);
                assert(cs.contains(es[e].1));
                lemma_no_short_cycle(g.n as nat, es, order@, e, e);
            }
            let key = ids@[first as int] as usize;
            assert forall|y: int| #[trigger] row_values(positions@).contains(y) <==> set![0int].contains(y) by {
                if y == 0 {
                    assert(positions@.contains_key(key) && positions@[key].1 as int == y);
                }
            }
            assert(row_values(positions@) =~= set![0int]);
            assert(set![0int].len() == 1);
            assert forall|x: int| #[trigger] column_values(positions@).contains(x) <==> set![sep as int].contains(x) by {
                if x == sep {
                    assert(positions@.contains_key(key) && positions@[key].0 as int == x);
                }
            }
            assert(column_values(positions@) =~= set![sep as int]);
            assert(set![sep as int].len() == 1);
            assert(positions@.dom() =~= set![key]);
            assert(set![key].len() == 1);
            assert(is_source(es, first)) by {
                assert forall|e: int| 0 <= e < es.len() implies (#[trigger] es[e]).1 != first by {
                    if es[e].1 == first {
                        assert(comps.comp_of@[es[e].0 as int] == comps.comp_of@[es[e].1 as int]);
                        assert(cs.contains(es[e].0));
                    }
                }
            }
        }
        (positions, 1, 1)
    } else {
        let m0 = members[0];
        let m1 = members[1];
        assert(mem[0] < mem[1]);
        assert(cs.contains(m1));
        if g.pred[m0].len() == 0 {
            first = m0;
            second = m1;
        } else {
            first = m1;
            second = m0;
        }
        proof {
            assert(cs =~= set![m0, m1]) by {
                assert forall|v: usize| cs.contains(v) implies v == m0 || v == m1 by {
                    assert(mem.contains(v));
                    let j = choose|j: int| 0 <= j < mem.len() && mem[j] == v;
                    assert(j == 0 || j == 1);
                }
            }
        }
        // an edge joins the two vertices, from `first` to `second`
        proof {
            if g.pred@[m0 as int]@.len() == 0 {
                assert(connected(es, m0, m1));
                let p = choose|p: Seq<usize>| is_walk(es, p) && p[0] == m0 && p.last() == m1;
                lemma_walk_leaves(es, p, m0);
                let i = choose|i: int| 0 <= i < es.len() && ((#[trigger] es[i]).0 == m0 || es[i].1 == m0) && es[i].0 != es[i].1;
                assert(comps.comp_of@[es[i].0 as int] == comps.comp_of@[es[i].1 as int]);
                if es[i].1 == m0 {
                    assert(g.pred@[m0 as int]@.contains(es[i].0));
                }
                assert(es[i] == (m0, m1));
                assert(has_edge(es, first, second));
            } else {
                let q = g.pred@[m0 as int]@[0];
                assert(has_edge(es, q, m0));
                let i = choose|i: int| 0 <= i < es.len() && es[i] == (q, m0);
                assert(comps.comp_of@[es[i].0 as int] == comps.comp_of@[es[i].1 as int]);
                lemma_no_short_cycle(g.n as nat, es, order@, i, i);
                assert(es[i] == (m1, m0));
                assert(has_edge(es, first, second));
            }
        }
        let ghost ef = choose|i: int| 0 <= i < es.len() && es[i] == (first, second);
        assert(ids@[first as int] != ids@[second as int]);
        positions.insert(ids[first] as usize, (sep, 0));
        positions.insert(ids[second] as usize, (sep, -sep));
        proof {
            vstd::arithmetic::div_mod::lemma_mod_multiples_basic(1, sep as int);
            vstd::arithmetic::div_mod::lemma_mod_multiples_basic(0, sep as int);
            vstd::arithmetic::div_mod::lemma_mod_multiples_basic(-1, sep as int);
            assert(es[ef].0 == first && es[ef].1 == second);
            assert forall|e: int| 0 <= e < es.len() && cs.contains((#[trigger] es[e]).0) implies es[e].0 == first && es[e].1 == second by {
                assert(comps.comp_of@[es[e].0 as int] == comps.comp_of@[es[e].1 as int]);
                assert(cs.contains(es[e].1));
                lemma_no_short_cycle(g.n as nat, es, order@, e, ef);
            }
            assert(!is_source(es, second)) by {
                assert(es[ef].1 == second);
            }
            let k1 = ids@[first as int] as usize;
            let k2 = ids@[second as int] as usize;
            let ys = set![0int, -sep];
            assert forall|y: int| #[trigger] row_values(positions@).contains(y) <==> ys.contains(y) by {
                if y == 0 {
                    assert(positions@.contains_key(k1) && positions@[k1].1 as int == y);
                }
                if y == -sep {
                    assert(positions@.contains_key(k2) && positions@[k2].1 as int == y);
                }
            }
            assert(row_values(positions@) =~= ys);
            assert(ys.len() == 2) by {
                assert(set![0int].len() == 1);
                assert(!set![0int].contains(-sep));
            }
            assert forall|x: int| #[trigger] column_values(positions@).contains(x) <==> set![sep as int].contains(x) by {
                if x == sep {
                    assert(positions@.contains_key(k1) && positions@[k1].0 as int == x);
                }
            }
            assert(column_values(positions@) =~= set![sep as int]);
            assert(set![sep as int].len() == 1);
            assert(positions@.dom() =~= set![k1, k2]);
            assert(is_source(es, first)) by {
                assert forall|e: int| 0 <= e < es.len() implies (#[trigger] es[e]).1 != first by {
                    if es[e].1 == first {
                        assert(comps.comp_of@[es[e].0 as int] == comps.comp_of@[es[e].1 as int]);
                        assert(cs.contains(es[e].0));
                    }
                }
            }
            assert(positions@[k1] == (sep, 0isize));
            assert(positions@[k2] == (sep, (-sep) as isize));
        }
        (positions, 1, 2)
    }
}

/// Why a layout could not be made.
#[derive(Debug, Clone, Copy, PartialEq, Eq)]
pub enum LayoutError {
    /// The edges form a directed cycle.
    CyclicInput,
    /// An edge names a vertex that is not in the vertex list.
    UnknownVertex,
    /// The node size is not positive.
    InvalidParam,
}

/// The index of identifier `id` in `ids`.
pub open spec fn dense_of(ids: Seq<u32>, id: u32) -> usize {
    choose|i: usize| i < ids.len() && ids[i as int] == id
}

/// The edges with each identifier replaced by its index in `ids`.
pub open spec fn dense_edges(ids: Seq<u32>, edges: Seq<(u32, u32)>) -> Seq<(usize, usize)> {
    Seq::new(edges.len(), |i: int| (dense_of(ids, edges[i].0), dense_of(ids, edges[i].1)))
}

/// Every edge names two vertices of `ids`.
pub open spec fn edges_known(ids: Seq<u32>, edges: Seq<(u32, u32)>) -> bool {
    forall|i: int| 0 <= i < edges.len() ==> ids.contains((#[trigger] edges[i]).0) && ids.contains(edges[i].1)
}

/// Vertex `v` has a position in some layout.
pub open spec fn covered(ids: Seq<u32>, layouts: Seq<Map<usize, (isize, isize)>>, v: int) -> bool {
    exists|c: int| 0 <= c < layouts.len() && #[trigger] layouts[c].contains_key(ids[v] as usize)
}

/// Every vertex has a position in some layout.
pub open spec fn layout_covers(ids: Seq<u32>, layouts: Seq<Map<usize, (isize, isize)>>) -> bool {
    forall|v: int| 0 <= v < ids.len() ==> #[trigger] covered(ids, layouts, v)
}

/// No key occurs in two layouts.
pub open spec fn layout_keys_unique(layouts: Seq<Map<usize, (isize, isize)>>) -> bool {
    forall|c1: int, c2: int, k: usize|
        0 <= c1 < layouts.len() && 0 <= c2 < layouts.len() && #[trigger] layouts[c1].contains_key(k)
            && #[trigger] layouts[c2].contains_key(k) ==> c1 == c2
}

/// Every key is a vertex identifier.
pub open spec fn layout_keys_known(ids: Seq<u32>, layouts: Seq<Map<usize, (isize, isize)>>) -> bool {
    forall|c: int, k: usize|
        0 <= c < layouts.len() && #[trigger] layouts[c].contains_key(k) ==> exists|v: int|
            0 <= v < ids.len() && ids[v] as usize == k
}

/// Every position is a grid point of spacing `sep`.
pub open spec fn layout_on_grid(layouts: Seq<Map<usize, (isize, isize)>>, sep: int) -> bool {
    forall|c: int, k: usize|
        0 <= c < layouts.len() && #[trigger] layouts[c].contains_key(k) ==> grid_point(layouts[c][k], sep)
}

/// Every edge stays inside one layout and points strictly down.
pub open spec fn layout_edges_down(edges: Seq<(u32, u32)>, layouts: Seq<Map<usize, (isize, isize)>>) -> bool {
    forall|i: int, c: int|
        0 <= i < edges.len() && 0 <= c < layouts.len() && #[trigger] layouts[c].contains_key((#[trigger] edges[i]).0 as usize)
            ==> layouts[c].contains_key(edges[i].1 as usize) && layouts[c][edges[i].0 as usize].1
            > layouts[c][edges[i].1 as usize].1
}

/// Any two vertices of one layout are joined by an undirected path.
pub open spec fn layout_connected(ids: Seq<u32>, es: Seq<(usize, usize)>, layouts: Seq<Map<usize, (isize, isize)>>) -> bool {
    forall|c: int, k1: usize, k2: usize|
        0 <= c < layouts.len() && #[trigger] layouts[c].contains_key(k1) && #[trigger] layouts[c].contains_key(k2) ==> connected(
            es,
            dense_of(ids, k1 as u32),
            dense_of(ids, k2 as u32),
        )
}

/// Every vertex without incoming edges is on the top row.
pub open spec fn layout_roots_on_top(ids: Seq<u32>, es: Seq<(usize, usize)>, layouts: Seq<Map<usize, (isize, isize)>>) -> bool {
    forall|c: int, v: int|
        0 <= c < layouts.len() && 0 <= v < ids.len() && #[trigger] layouts[c].contains_key(ids[v] as usize) && is_source(
            es,
            v as usize,
        ) ==> layouts[c][ids[v] as usize].1 == 0
}

/// A layout of one or two vertices is a single column at `x = sep`: the
/// vertex without incoming edges at `y = 0`, the other at `y = -sep`.
pub open spec fn layout_small_columns(ids: Seq<u32>, es: Seq<(usize, usize)>, layouts: Seq<Map<usize, (isize, isize)>>, sep: int) -> bool {
    forall|c: int, v: int|
        0 <= c < layouts.len() && 0 <= v < ids.len() && #[trigger] layouts[c].contains_key(ids[v] as usize)
            && layouts[c].dom().len() <= 2 ==> layouts[c][ids[v] as usize] == (sep as isize, if is_source(es, v as usize) {
            0isize
        } else {
            -sep as isize
        })
}

/// Each width is the number of distinct `x` coordinates of its layout.
pub open spec fn layout_widths(layouts: Seq<Map<usize, (isize, isize)>>, widths: Seq<usize>) -> bool {
    forall|c: int|
        0 <= c < layouts.len() ==> column_values(#[trigger] layouts[c]).finite() && widths[c] == column_values(layouts[c]).len()
}

/// Each height is the number of distinct `y` coordinates of its layout.
pub open spec fn layout_heights(layouts: Seq<Map<usize, (isize, isize)>>, heights: Seq<usize>) -> bool {
    forall|c: int|
        0 <= c < layouts.len() ==> row_values(#[trigger] layouts[c]).finite() && heights[c] == row_values(layouts[c]).len()
}

/// `out` lays out the graph with vertices `ids` and `edges`, one layout per
/// component, on the grid of spacing `4 * node_size`.
pub open spec fn layout_valid(
    ids: Seq<u32>,
    edges: Seq<(u32, u32)>,
    node_size: int,
    roots_to_top: bool,
    out: (Seq<Map<usize, (isize, isize)>>, Seq<usize>, Seq<usize>),
) -> bool {
    let (layouts, widths, heights) = out;
    let es = dense_edges(ids, edges);
    &&& layouts.len() == widths.len()
    &&& layouts.len() == heights.len()
    &&& layout_covers(ids, layouts)
    &&& layout_keys_unique(layouts)
    &&& layout_keys_known(ids, layouts)
    &&& layout_on_grid(layouts, 4 * node_size)
    &&& layout_edges_down(edges, layouts)
    &&& layout_connected(ids, es, layouts)
    &&& forall|c: int| 0 <= c < layouts.len() ==> #[trigger] widths[c] >= 1 && heights[c] >= 1
    &&& layout_widths(layouts, widths)
    &&& layout_heights(layouts, heights)
    &&& layout_small_columns(ids, es, layouts, 4 * node_size)
    &&& roots_to_top ==> layout_roots_on_top(ids, es, layouts)
}

/// The index of `id` in `ids`.
fn position_of(ids: &[u32], id: u32) -> (r: Option<usize>)
    ensures
        r matches Some(i) ==> i < ids@.len() && ids@[i as int] == id,
        r is None ==> !ids@.contains(id),
{
    let mut i: usize = 0;
    while i < ids.len()
        invariant
            i <= ids@.len(),
            forall|j: int| 0 <= j < i ==> ids@[j] != id,
        decreases ids@.len() - i,
    {
        if ids[i] == id {
            return Some(i);
        }
        i = i + 1;
    }
    None
}

/// Replaces each identifier of `edges` by its index in `ids`, or fails on an
/// identifier that `ids` lacks.
fn dense_edge_list(ids: &[u32], edges: &[(u32, u32)]) -> (r: Option<Vec<(usize, usize)>>)
    requires
        ids_unique(ids@),
    ensures
        r is None <==> !edges_known(ids@, edges@),
        r matches Some(d) ==> d@ == dense_edges(ids@, edges@) && edges_within(ids@.len(), d@),
{
    let mut d: Vec<(usize, usize)> = Vec::new();
    let mut i: usize = 0;
    while i < edges.len()
        invariant
            ids_unique(ids@),
            i <= edges@.len(),
            d@ == dense_edges(ids@, edges@.subrange(0, i as int)),
            edges_within(ids@.len(), d@),
            forall|j: int| 0 <= j < i ==> ids@.contains((#[trigger] edges@[j]).0) && ids@.contains(edges@[j].1),
        decreases edges@.len() - i,
    {
        let (a, b) = edges[i];
        let pa = position_of(ids, a);
        let pb = position_of(ids, b);
        match (pa, pb) {
            (Some(x), Some(y)) => {
                proof {
                    lemma_dense_of(ids@, x);
                    lemma_dense_of(ids@, y);
                }
                d.push((x, y));
                assert(d@ =~= dense_edges(ids@, edges@.subrange(0, i as int + 1)));
            },
            _ => {
                assert(!(ids@.contains(edges@[i as int].0) && ids@.contains(edges@[i as int].1)));
                return None;
            },
        }
        i = i + 1;
    }
    assert(edges@.subrange(0, i as int) =~= edges@);
    Some(d)
}

/// With unique identifiers the index of `ids[i]` is `i`.
proof fn lemma_dense_of(ids: Seq<u32>, i: usize)
    requires
        ids_unique(ids),
        i < ids.len(),
    ensures
        dense_of(ids, ids[i as int]) == i,
{
    let j = dense_of(ids, ids[i as int]);
    assert(j < ids.len() && ids[j as int] == ids[i as int]);
}

impl GraphLayout {
    /// Lays out the graph with vertices `nodes` and `edges` (pairs `(tail,
    /// head)` of vertex identifiers), one layout per weakly-connected
    /// component, with vertices `node_size * 4` apart; with
    /// `global_tasks_in_first_row` every vertex without predecessors ends on
    /// the top row. Each layout maps vertex identifiers to `(x, y)`; the
    /// widths are the largest number of vertices on one level, the heights the
    /// number of non-empty levels.
    pub fn create_layers(
        nodes: &[u32],
        edges: &[(u32, u32)],
        node_size: isize,
        global_tasks_in_first_row: bool,
    ) -> (r: Result<(Vec<NodePositions>, Vec<usize>, Vec<usize>), LayoutError>)
        requires
            ids_unique(nodes@),
            nodes@.len() < 0xffff_ffff,
            edges@.len() < 0xffff_ffff,
            (2 * nodes@.len() + 2) * (4 * node_size) <= isize::MAX,
        ensures
            node_size <= 0 ==> r == Err::<(Vec<NodePositions>, Vec<usize>, Vec<usize>), LayoutError>(
                LayoutError::InvalidParam,
            ),
            node_size > 0 && !edges_known(nodes@, edges@) ==> r == Err::<(Vec<NodePositions>, Vec<usize>, Vec<usize>), LayoutError>(
                LayoutError::UnknownVertex,
            ),
            node_size > 0 && edges_known(nodes@, edges@) && !is_acyclic(nodes@.len(), dense_edges(nodes@, edges@))
                ==> r == Err::<(Vec<NodePositions>, Vec<usize>, Vec<usize>), LayoutError>(LayoutError::CyclicInput),
            node_size > 0 && edges_known(nodes@, edges@) && is_acyclic(nodes@.len(), dense_edges(nodes@, edges@))
                ==> (r matches Ok(out) && layout_valid(
                nodes@,
                edges@,
                node_size as int,
                global_tasks_in_first_row,
                (out.0@.map_values(|m: NodePositions| m@), out.1@, out.2@),
            )),
    {
        if node_size <= 0 {
            return Err(LayoutError::InvalidParam);
        }
        proof {
            let m = 2 * nodes@.len() + 2;
            assert(m * (4 * node_size) >= 4 * node_size) by (nonlinear_arith)
                requires
                    m >= 1,
                    node_size > 0,
            ;
        }
        let dense = match dense_edge_list(nodes, edges) {
            Some(d) => d,
            None => {
                return Err(LayoutError::UnknownVertex);
            },
        };
        let n = nodes.len();
        let g = Graph::new(n, dense);
        let order = match toposort(n, &g.edges) {
            Some(o) => o,
            None => {
                return Err(LayoutError::CyclicInput);
            },
        };
        let comps = into_weakly_connected_components(&g);
        let sep = node_size * 4;
        let ghost ids = nodes@;
        let ghost es = g.edges@;
        let mut layout_list: Vec<NodePositions> = Vec::new();
        let mut width_list: Vec<usize> = Vec::new();
        let mut height_list: Vec<usize> = Vec::new();
        let mut c: usize = 0;
        while c < comps.members.len()
            invariant
                g.wf(),
                g.n == n,
                n == nodes@.len(),
                ids == nodes@,
                es == g.edges@,
                ids_unique(ids),
                n < 0xffff_ffff,
                comps.partitions(&g),
                is_topological_order(n as nat, es, order@),
                sep == 4 * node_size,
                sep > 0,
                (2 * n + 2) * sep <= isize::MAX,
                c <= comps.members@.len(),
                layout_list@.len() == c,
                width_list@.len() == c,
                height_list@.len() == c,
                forall|d: int|
                    0 <= d < c ==> component_emitted(
                        ids,
                        es,
                        comp_set(&comps, d as usize),
                        sep as int,
                        global_tasks_in_first_row,
                        (#[trigger] layout_list@[d])@,
                        width_list@[d] as nat,
                        height_list@[d] as nat,
                    ),
            decreases comps.members@.len() - c,
        {
            let (positions, width, height) = if comps.members[c].len() <= 2 {
                handle_two_or_less_nodes_graph(&g, &comps, c, nodes, sep, global_tasks_in_first_row, Ghost(order@))
            } else {
                let mut layout = GraphLayout::new(n, sep, global_tasks_in_first_row);
                let frame = layout.align_nodes(&g, &comps, c, &order);
                layout.build_layout(&g, &comps, c, nodes, frame)
            };
            layout_list.push(positions);
            width_list.push(width);
            height_list.push(height);
            proof {
                assert forall|d: int|
                    0 <= d < c + 1 implies component_emitted(
                    ids,
                    es,
                    comp_set(&comps, d as usize),
                    sep as int,
                    global_tasks_in_first_row,
                    (#[trigger] layout_list@[d])@,
                    width_list@[d] as nat,
                    height_list@[d] as nat,
                ) by {}
            }
            c = c + 1;
        }
        let r = (layout_list, width_list, height_list);
        proof {
            assert(layout_list@.len() == layout_list.len());
            let layouts = layout_list@.map_values(|m: NodePositions| m@);
            assert forall|d: int| 0 <= d < layouts.len() implies #[trigger] layouts[d] == layout_list@[d]@ by {}
            assert(sep as int == 4 * node_size);
            assert(components_emitted(&g, &comps, ids, 4 * node_size, global_tasks_in_first_row, layouts, width_list@, height_list@));
            lemma_layout_valid(&g, &comps, ids, edges@, node_size as int, global_tasks_in_first_row, layouts, width_list@, height_list@);
        }
        Ok(r)
    }
}

/// What the layouts of the components satisfy one by one.
pub open spec fn components_emitted(
    g: &Graph,
    comps: &Components,
    ids: Seq<u32>,
    sep: int,
    roots_to_top: bool,
    layouts: Seq<Map<usize, (isize, isize)>>,
    widths: Seq<usize>,
    heights: Seq<usize>,
) -> bool {
    &&& g.wf()
    &&& g.n == ids.len()
    &&& ids_unique(ids)
    &&& comps.partitions(g)
    &&& layouts.len() == comps.members@.len()
    &&& layouts.len() <= usize::MAX
    &&& widths.len() == layouts.len()
    &&& heights.len() == layouts.len()
    &&& forall|d: int|
        0 <= d < layouts.len() ==> component_emitted(
            ids,
            g.edges@,
            comp_set(comps, d as usize),
            sep,
            roots_to_top,
            #[trigger] layouts[d],
            widths[d] as nat,
            heights[d] as nat,
        )
}

/// The layouts of all components together lay out the whole graph.
proof fn lemma_layout_valid(
    g: &Graph,
    comps: &Components,
    ids: Seq<u32>,
    edges: Seq<(u32, u32)>,
    node_size: int,
    roots_to_top: bool,
    layouts: Seq<Map<usize, (isize, isize)>>,
    widths: Seq<usize>,
    heights: Seq<usize>,
)
    requires
        components_emitted(g, comps, ids, 4 * node_size, roots_to_top, layouts, widths, heights),
        g.edges@ == dense_edges(ids, edges),
        edges_known(ids, edges),
    ensures
        layout_valid(ids, edges, node_size, roots_to_top, (layouts, widths, heights)),
{
    lemma_layout_covers(g, comps, ids, 4 * node_size, roots_to_top, layouts, widths, heights);
    lemma_layout_edges(g, comps, ids, edges, 4 * node_size, roots_to_top, layouts, widths, heights);
}

/// A component has as many vertices as its member list.
proof fn lemma_comp_size(g: &Graph, comps: &Components, c: usize)
    requires
        g.wf(),
        comps.partitions(g),
        c < comps.members@.len(),
    ensures
        comp_set(comps, c).finite(),
        comp_set(comps, c).len() == comps.members@[c as int]@.len(),
{
    let m = comps.members@[c as int]@;
    assert(m.no_duplicates()) by {
        assert forall|a: int, b: int| 0 <= a < m.len() && 0 <= b < m.len() && a != b implies m[a] != m[b] by {
            if a < b {
                assert(m[a] < m[b]);
            } else {
                assert(m[b] < m[a]);
            }
        }
    }
    m.unique_seq_to_set();
    assert(comp_set(comps, c) =~= m.to_set()) by {
        assert forall|v: usize| comp_set(comps, c).contains(v) implies m.to_set().contains(v) by {
            assert(comps.members@[comps.comp_of@[v as int] as int]@.contains(v));
        }
        assert forall|v: usize| m.to_set().contains(v) implies comp_set(comps, c).contains(v) by {
            let j = choose|j: int| 0 <= j < m.len() && m[j] == v;
            assert(comps.members@[c as int]@[j] == v);
        }
    }
}

/// The keys of a component's layout are as many as its vertices.
proof fn lemma_key_count(ids: Seq<u32>, cs: Set<usize>, pos: Map<usize, (isize, isize)>)
    requires
        ids_unique(ids),
        cs.finite(),
        forall|v: usize| #[trigger] cs.contains(v) ==> v < ids.len(),
        forall|v: usize| #[trigger] cs.contains(v) ==> pos.contains_key(ids[v as int] as usize),
        forall|k: usize| #[trigger] pos.contains_key(k) ==> exists|v: usize| cs.contains(v) && ids[v as int] as usize == k,
    ensures
        pos.dom().finite(),
        pos.dom().len() == cs.len(),
{
    let f = |v: usize| ids[v as int] as usize;
    assert(cs.map(f) =~= pos.dom()) by {
        assert forall|k: usize| pos.dom().contains(k) implies cs.map(f).contains(k) by {
            let v = choose|v: usize| cs.contains(v) && ids[v as int] as usize == k;
            assert(f(v) == k);
        }
    }
    assert forall|a: usize, b: usize| cs.contains(a) && cs.contains(b) && #[trigger] f(a) == #[trigger] f(b) implies a == b by {
        lemma_same_id(ids, a, b);
    }
    vstd::set_lib::lemma_map_size(cs, pos.dom(), f);
}

/// Two vertices with one identifier are one vertex.
proof fn lemma_same_id(ids: Seq<u32>, a: usize, b: usize)
    requires
        ids_unique(ids),
        a < ids.len(),
        b < ids.len(),
        ids[a as int] as usize == ids[b as int] as usize,
    ensures
        a == b,
{
    if a < b {
        assert(ids[a as int] != ids[b as int]);
    } else if b < a {
        assert(ids[b as int] != ids[a as int]);
    }
}

/// The key `k` of layout `c` is the identifier of a vertex of component `c`.
proof fn lemma_key_vertex(
    g: &Graph,
    comps: &Components,
    ids: Seq<u32>,
    sep: int,
    roots_to_top: bool,
    layouts: Seq<Map<usize, (isize, isize)>>,
    widths: Seq<usize>,
    heights: Seq<usize>,
    c: int,
    k: usize,
) -> (v: usize)
    requires
        components_emitted(g, comps, ids, sep, roots_to_top, layouts, widths, heights),
        0 <= c < layouts.len(),
        layouts[c].contains_key(k),
    ensures
        v < ids.len(),
        comps.comp_of@[v as int] == c,
        ids[v as int] as usize == k,
{
    assert(component_emitted(ids, g.edges@, comp_set(comps, c as usize), sep, roots_to_top, layouts[c], widths[c] as nat, heights[c] as nat));
    choose|v: usize| comp_set(comps, c as usize).contains(v) && ids[v as int] as usize == k
}

proof fn lemma_layout_covers(
    g: &Graph,
    comps: &Components,
    ids: Seq<u32>,
    sep: int,
    roots_to_top: bool,
    layouts: Seq<Map<usize, (isize, isize)>>,
    widths: Seq<usize>,
    heights: Seq<usize>,
)
    requires
        components_emitted(g, comps, ids, sep, roots_to_top, layouts, widths, heights),
    ensures
        layout_covers(ids, layouts),
        layout_keys_unique(layouts),
        layout_keys_known(ids, layouts),
        layout_on_grid(layouts, sep),
        forall|c: int| 0 <= c < layouts.len() ==> #[trigger] widths[c] >= 1 && heights[c] >= 1,
        layout_heights(layouts, heights),
        layout_widths(layouts, widths),
{
    assert forall|v: int| 0 <= v < ids.len() implies #[trigger] covered(ids, layouts, v) by {
        let c = comps.comp_of@[v] as int;
        assert(comp_set(comps, c as usize).contains(v as usize));
        assert(component_emitted(ids, g.edges@, comp_set(comps, c as usize), sep, roots_to_top, layouts[c], widths[c] as nat, heights[c] as nat));
        assert(layouts[c].contains_key(ids[(v as usize) as int] as usize));
    }
    assert forall|c1: int, c2: int, k: usize|
        0 <= c1 < layouts.len() && 0 <= c2 < layouts.len() && #[trigger] layouts[c1].contains_key(k)
            && #[trigger] layouts[c2].contains_key(k) implies c1 == c2 by {
        let v1 = lemma_key_vertex(g, comps, ids, sep, roots_to_top, layouts, widths, heights, c1, k);
        let v2 = lemma_key_vertex(g, comps, ids, sep, roots_to_top, layouts, widths, heights, c2, k);
        lemma_same_id(ids, v1, v2);
    }
    assert forall|c: int, k: usize| 0 <= c < layouts.len() && #[trigger] layouts[c].contains_key(k) implies exists|v: int|
        0 <= v < ids.len() && ids[v] as usize == k by {
        let v = lemma_key_vertex(g, comps, ids, sep, roots_to_top, layouts, widths, heights, c, k);
        assert(ids[v as int] as usize == k);
    }
    assert forall|c: int, k: usize| 0 <= c < layouts.len() && #[trigger] layouts[c].contains_key(k) implies grid_point(layouts[c][k], sep) by {
        assert(component_emitted(ids, g.edges@, comp_set(comps, c as usize), sep, roots_to_top, layouts[c], widths[c] as nat, heights[c] as nat));
    }
    assert forall|c: int| 0 <= c < layouts.len() implies #[trigger] widths[c] >= 1 && heights[c] >= 1 by {
        assert(component_emitted(ids, g.edges@, comp_set(comps, c as usize), sep, roots_to_top, layouts[c], widths[c] as nat, heights[c] as nat));
    }
    assert forall|c: int| 0 <= c < layouts.len() implies row_values(#[trigger] layouts[c]).finite() && heights[c] == row_values(layouts[c]).len() by {
        assert(component_emitted(ids, g.edges@, comp_set(comps, c as usize), sep, roots_to_top, layouts[c], widths[c] as nat, heights[c] as nat));
    }
    assert forall|c: int| 0 <= c < layouts.len() implies column_values(#[trigger] layouts[c]).finite() && widths[c] == column_values(layouts[c]).len() by {
        assert(component_emitted(ids, g.edges@, comp_set(comps, c as usize), sep, roots_to_top, layouts[c], widths[c] as nat, heights[c] as nat));
    }
}

proof fn lemma_layout_edges(
    g: &Graph,
    comps: &Components,
    ids: Seq<u32>,
    edges: Seq<(u32, u32)>,
    sep: int,
    roots_to_top: bool,
    layouts: Seq<Map<usize, (isize, isize)>>,
    widths: Seq<usize>,
    heights: Seq<usize>,
)
    requires
        components_emitted(g, comps, ids, sep, roots_to_top, layouts, widths, heights),
        g.edges@ == dense_edges(ids, edges),
        edges_known(ids, edges),
    ensures
        layout_edges_down(edges, layouts),
        layout_connected(ids, g.edges@, layouts),
        layout_small_columns(ids, g.edges@, layouts, sep),
        roots_to_top ==> layout_roots_on_top(ids, g.edges@, layouts),
{
    let es = g.edges@;
    assert forall|i: int, c: int|
        0 <= i < edges.len() && 0 <= c < layouts.len() && #[trigger] layouts[c].contains_key((#[trigger] edges[i]).0 as usize)
        implies layouts[c].contains_key(edges[i].1 as usize) && layouts[c][edges[i].0 as usize].1
        > layouts[c][edges[i].1 as usize].1 by {
        let cs = comp_set(comps, c as usize);
        assert(component_emitted(ids, es, cs, sep, roots_to_top, layouts[c], widths[c] as nat, heights[c] as nat));
        let a = es[i].0;
        let b = es[i].1;
        let ia = choose|j: int| 0 <= j < ids.len() && ids[j] == edges[i].0;
        let ib = choose|j: int| 0 <= j < ids.len() && ids[j] == edges[i].1;
        lemma_dense_of(ids, ia as usize);
        lemma_dense_of(ids, ib as usize);
        assert(a == ia && b == ib);
        let v = lemma_key_vertex(g, comps, ids, sep, roots_to_top, layouts, widths, heights, c, edges[i].0 as usize);
        lemma_same_id(ids, v, a);
        assert(cs.contains(a));
        assert(comps.comp_of@[es[i].0 as int] == comps.comp_of@[es[i].1 as int]);
        assert(cs.contains(b));
    }
    assert forall|c: int, k1: usize, k2: usize|
        0 <= c < layouts.len() && #[trigger] layouts[c].contains_key(k1) && #[trigger] layouts[c].contains_key(k2) implies connected(
        es,
        dense_of(ids, k1 as u32),
        dense_of(ids, k2 as u32),
    ) by {
        let v1 = lemma_key_vertex(g, comps, ids, sep, roots_to_top, layouts, widths, heights, c, k1);
        let v2 = lemma_key_vertex(g, comps, ids, sep, roots_to_top, layouts, widths, heights, c, k2);
        lemma_dense_of(ids, v1);
        lemma_dense_of(ids, v2);
        assert(ids[v1 as int] == k1 as u32);
        assert(ids[v2 as int] == k2 as u32);
    }
    assert forall|c: int, v: int|
        0 <= c < layouts.len() && 0 <= v < ids.len() && #[trigger] layouts[c].contains_key(ids[v] as usize)
            && layouts[c].dom().len() <= 2 implies layouts[c][ids[v] as usize] == (sep as isize, if is_source(es, v as usize) {
        0isize
    } else {
        -sep as isize
    }) by {
        let cs = comp_set(comps, c as usize);
        assert(component_emitted(ids, es, cs, sep, roots_to_top, layouts[c], widths[c] as nat, heights[c] as nat));
        let u = lemma_key_vertex(g, comps, ids, sep, roots_to_top, layouts, widths, heights, c, ids[v] as usize);
        lemma_same_id(ids, u, v as usize);
        assert(cs.contains(v as usize));
    }
    if roots_to_top {
        assert forall|c: int, v: int|
            0 <= c < layouts.len() && 0 <= v < ids.len() && #[trigger] layouts[c].contains_key(ids[v] as usize) && is_source(
                es,
                v as usize,
            ) implies layouts[c][ids[v] as usize].1 == 0 by {
            let cs = comp_set(comps, c as usize);
            assert(component_emitted(ids, es, cs, sep, roots_to_top, layouts[c], widths[c] as nat, heights[c] as nat));
            let u = lemma_key_vertex(g, comps, ids, sep, roots_to_top, layouts, widths, heights, c, ids[v] as usize);
            lemma_same_id(ids, u, v as usize);
            assert(cs.contains(v as usize));
        }
    }
}

} // verus!
